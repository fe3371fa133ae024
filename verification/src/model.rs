//! How the model reads rows: their layouts, which tokens see which, and the integer tables of a
//! padded batch.

use vstd::prelude::*;

use crate::agent::{self, same_ids};
use crate::sequence::{self, Encoded};

verus! {

/// Which part of a row comes first.
#[derive(Clone, Copy, PartialEq, Eq, Structural, Debug)]
pub enum Layout {
    /// The question first: `[CLS] question [SEP] options [SEP] state [SEP]`.
    Laya,
    /// The state first, so that questions about one state share it: `[CLS] state [SEP] [CLS]
    /// question [SEP] options [SEP]`.
    Prefix,
}

// ---------------------------------------------------------------------------------------------
// Which tokens see which

/// Whether a token at `i` sees one at `j` in a row of `len` tokens whose first `prefix` are the
/// state: padding is seen by none, and the state sees only the state.
pub open spec fn visible(len: int, prefix: int, i: int, j: int) -> bool {
    j < len && (i >= prefix || j < prefix)
}

/// Whether two places are near enough for a layer with a sliding window.
pub open spec fn near(half_window: int, i: int, j: int) -> bool {
    i - j <= half_window && j - i <= half_window
}

/// Whether a token at `i` sees one at `j` where states stand left-padded to `width` tokens, by
/// `pad` of them, and questions of `suffix` tokens behind them.
pub open spec fn visible_padded(pad: int, width: int, suffix: int, i: int, j: int) -> bool {
    pad <= j < width + suffix && (i >= width || j < width)
}

/// Whether a token sees another in a row.
pub fn sees(len: usize, prefix: usize, i: usize, j: usize) -> (r: bool)
    ensures
        r == visible(len as int, prefix as int, i as int, j as int),
{
    j < len && (i >= prefix || j < prefix)
}

/// Whether two places are near enough for a layer with a sliding window.
pub fn is_near(half_window: usize, i: usize, j: usize) -> (r: bool)
    ensures
        r == near(half_window as int, i as int, j as int),
{
    if i >= j {
        i - j <= half_window
    } else {
        j - i <= half_window
    }
}

/// Whether a token sees another where states stand left-padded.
pub fn sees_padded(pad: usize, width: usize, suffix: usize, i: usize, j: usize) -> (r: bool)
    ensures
        r == visible_padded(pad as int, width as int, suffix as int, i as int, j as int),
{
    pad <= j && (j < width || (i >= width && j - width < suffix))
}

/// Encoding a state once is the same as encoding it with each question: moved right by the
/// state's padding, every token of a row sees what it saw in the row alone, is as near to it, and
/// sees nothing of the padding.
pub proof fn lemma_sharing_the_state_hides_nothing(
    len: int,
    prefix: int,
    width: int,
    half_window: int,
    i: int,
    j: int,
    k: int,
)
    requires
        0 <= prefix <= len,
        prefix <= width,
        0 <= i < len,
        0 <= j < len,
    ensures
        ({
            let pad = width - prefix;
            &&& visible_padded(pad, width, len - prefix, i + pad, j + pad) == visible(
                len,
                prefix,
                i,
                j,
            )
            &&& near(half_window, i + pad, j + pad) == near(half_window, i, j)
            &&& 0 <= k < pad ==> !visible_padded(pad, width, len - prefix, i + pad, k)
        }),
{
}

/// The state does not see the question, whatever the question is.
pub proof fn lemma_the_state_is_blind_to_the_question(len: int, prefix: int, i: int, j: int)
    requires
        0 <= i < prefix,
        visible(len, prefix, i, j),
    ensures
        j < prefix,
{
}

// ---------------------------------------------------------------------------------------------
// Tables

/// The largest of several lengths, or 0.
pub open spec fn most(v: Seq<nat>) -> nat
    decreases v.len(),
{
    if v.len() == 0 {
        0
    } else if v.last() > most(v.drop_last()) {
        v.last()
    } else {
        most(v.drop_last())
    }
}

/// No length is larger than the largest.
pub proof fn lemma_most(v: Seq<nat>, i: int)
    requires
        0 <= i < v.len(),
    ensures
        v[i] <= most(v),
    decreases v.len(),
{
    if i < v.len() - 1 {
        lemma_most(v.drop_last(), i);
        assert(v.drop_last()[i] == v[i]);
    }
}

/// `n` times the same number.
pub open spec fn repeated(x: u32, n: int) -> Seq<u32> {
    Seq::new(
        if n >= 0 {
            n as nat
        } else {
            0
        },
        |i: int| x,
    )
}

/// A list padded on the right to `width`.
pub open spec fn padded(s: Seq<u32>, width: int, x: u32) -> Seq<u32> {
    s + repeated(x, width - s.len())
}

/// A list padded on the left to `width`.
pub open spec fn padded_left(s: Seq<u32>, width: int, x: u32) -> Seq<u32> {
    repeated(x, width - s.len()) + s
}

/// The tokens behind a row's state.
pub open spec fn own_part(e: Encoded) -> Seq<u32> {
    e.ids@.skip(e.prefix_len as int)
}

/// Places as numbers of 32 bits, counted from `shift`.
pub open spec fn shifted(places: Seq<usize>, shift: int) -> Seq<u32> {
    Seq::new(places.len(), |i: int| (places[i] - shift) as u32)
}

/// Whether the state and the options of every row start inside it, the options behind the state,
/// and every place fits 32 bits.
pub open spec fn tabular(rows: Seq<Encoded>) -> bool {
    forall|i: int|
        0 <= i < rows.len() ==> {
            &&& (#[trigger] rows[i]).prefix_len <= rows[i].ids@.len()
            &&& rows[i].ids@.len() <= u32::MAX
            &&& forall|k: int|
                0 <= k < rows[i].markers@.len() ==> rows[i].prefix_len <= #[trigger] rows[i].markers@[k]
                    < rows[i].ids@.len()
        }
}

fn push_times(v: &mut Vec<u32>, x: u32, n: usize)
    ensures
        final(v)@ == old(v)@ + repeated(x, n as int),
{
    let ghost before = v@;
    let mut i: usize = 0;
    proof {
        assert(v@ =~= before + repeated(x, 0));
    }
    while i < n
        invariant
            i <= n,
            v@ == before + repeated(x, i as int),
        decreases n - i,
    {
        v.push(x);
        proof {
            assert(v@ =~= before + repeated(x, i + 1));
        }
        i += 1;
    }
}

/// Appends a list padded on the right.
pub fn push_padded(v: &mut Vec<u32>, s: &[u32], width: usize, x: u32)
    requires
        s@.len() <= width,
    ensures
        final(v)@ == old(v)@ + padded(s@, width as int, x),
{
    let ghost before = v@;
    v.extend_from_slice(s);
    push_times(v, x, width - s.len());
    proof {
        assert(v@ =~= before + padded(s@, width as int, x));
    }
}

/// The lengths of rows.
pub open spec fn lengths(rows: Seq<Encoded>) -> Seq<nat> {
    Seq::new(rows.len(), |i: int| rows[i].ids@.len())
}

/// The lengths of what comes behind the state.
pub open spec fn own_lengths(rows: Seq<Encoded>) -> Seq<nat> {
    Seq::new(rows.len(), |i: int| own_part(rows[i]).len())
}

/// How many options rows have.
pub open spec fn option_counts(rows: Seq<Encoded>) -> Seq<nat> {
    Seq::new(rows.len(), |i: int| rows[i].markers@.len())
}

/// The integer tables of a batch, row after row.
#[derive(Debug, PartialEq, Eq)]
pub struct Tables {
    /// Tokens per row, padding included.
    pub width: usize,
    /// Options per row, padding included.
    pub options: usize,
    /// The tokens of each row, padded on the right.
    pub ids: Vec<u32>,
    /// 1 for a token, 0 for padding.
    pub attention: Vec<u32>,
    /// The place of each option's mask token, padded with 0.
    pub markers: Vec<u32>,
    /// 1 for an option, 0 for padding.
    pub marked: Vec<u32>,
    /// The place of each row's question type.
    pub qtypes: Vec<u32>,
    /// The place of the token that stands for the row.
    pub pooled: Vec<u32>,
    /// 1 where a token belongs to the question, 0 where to the state.
    pub question: Vec<u32>,
}

/// The place that stands for a row: the start of its question.
pub open spec fn pooled_at(layout: Layout, e: Encoded) -> int {
    match layout {
        Layout::Laya => 0,
        Layout::Prefix => e.prefix_len as int,
    }
}

/// The rows of each table of a batch.
pub open spec fn ids_rows(rows: Seq<Encoded>, width: int, pad: u32) -> Seq<Seq<u32>> {
    Seq::new(rows.len(), |i: int| padded(rows[i].ids@, width, pad))
}

/// Which places of each row hold tokens.
pub open spec fn attention_rows(rows: Seq<Encoded>, width: int) -> Seq<Seq<u32>> {
    Seq::new(rows.len(), |i: int| padded(repeated(1, rows[i].ids@.len() as int), width, 0))
}

/// Which places of each row belong to the question; padding counts as such.
pub open spec fn question_rows(rows: Seq<Encoded>, width: int) -> Seq<Seq<u32>> {
    Seq::new(rows.len(), |i: int| padded(repeated(0, rows[i].prefix_len as int), width, 1))
}

/// The places of a row's options.
pub open spec fn markers_row(e: Encoded, shift: int, options: int) -> Seq<u32> {
    padded(shifted(e.markers@, shift), options, 0)
}

/// The places of each row's options.
pub open spec fn markers_rows(rows: Seq<Encoded>, options: int) -> Seq<Seq<u32>> {
    Seq::new(rows.len(), |i: int| markers_row(rows[i], 0, options))
}

/// The places of each row's options behind its state.
pub open spec fn own_markers_rows(rows: Seq<Encoded>, options: int) -> Seq<Seq<u32>> {
    Seq::new(rows.len(), |i: int| markers_row(rows[i], rows[i].prefix_len as int, options))
}

/// Which option places of each row hold options.
pub open spec fn marked_rows(rows: Seq<Encoded>, options: int) -> Seq<Seq<u32>> {
    Seq::new(rows.len(), |i: int| padded(repeated(1, rows[i].markers@.len() as int), options, 0))
}

/// What comes behind the state in each row.
pub open spec fn own_rows(rows: Seq<Encoded>, width: int, pad: u32) -> Seq<Seq<u32>> {
    Seq::new(rows.len(), |i: int| padded(own_part(rows[i]), width, pad))
}

/// The states, padded on the left.
pub open spec fn state_rows(s: Seq<Seq<u32>>, width: int, pad: u32) -> Seq<Seq<u32>> {
    Seq::new(s.len(), |g: int| padded_left(s[g], width, pad))
}

/// The places of the rows' question types.
pub open spec fn type_places(rows: Seq<Encoded>) -> Seq<u32> {
    Seq::new(rows.len(), |i: int| rows[i].qtype.place() as u32)
}

/// The places that stand for the rows.
pub open spec fn pooled_places(rows: Seq<Encoded>, layout: Layout) -> Seq<u32> {
    Seq::new(rows.len(), |i: int| pooled_at(layout, rows[i]) as u32)
}

impl Tables {
    /// Whether these are the tables of a batch of rows.
    pub open spec fn hold(self, rows: Seq<Encoded>, pad: u32, layout: Layout) -> bool {
        let n = rows.len();
        let w = self.width as int;
        let k = self.options as int;
        &&& self.width == most(lengths(rows))
        &&& self.options == most(option_counts(rows))
        &&& self.ids@ == sequence::flat(ids_rows(rows, w, pad))
        &&& self.attention@ == sequence::flat(attention_rows(rows, w))
        &&& self.question@ == sequence::flat(question_rows(rows, w))
        &&& self.markers@ == sequence::flat(markers_rows(rows, k))
        &&& self.marked@ == sequence::flat(marked_rows(rows, k))
        &&& self.qtypes@ == type_places(rows)
        &&& self.pooled@ == pooled_places(rows, layout)
    }
}

fn widest(rows: &[Encoded]) -> (r: (usize, usize))
    ensures
        r.0 == most(lengths(rows@)),
        r.1 == most(option_counts(rows@)),
{
    let ghost a = lengths(rows@);
    let ghost b = option_counts(rows@);
    let mut w: usize = 0;
    let mut k: usize = 0;
    let mut i: usize = 0;
    while i < rows.len()
        invariant
            i <= rows@.len(),
            a == lengths(rows@),
            b == option_counts(rows@),
            w == most(a.take(i as int)),
            k == most(b.take(i as int)),
        decreases rows@.len() - i,
    {
        proof {
            assert(a.take(i + 1).drop_last() =~= a.take(i as int));
            assert(b.take(i + 1).drop_last() =~= b.take(i as int));
        }
        if rows[i].ids.len() > w {
            w = rows[i].ids.len();
        }
        if rows[i].markers.len() > k {
            k = rows[i].markers.len();
        }
        i += 1;
    }
    proof {
        assert(a.take(i as int) =~= a);
        assert(b.take(i as int) =~= b);
    }
    (w, k)
}

/// One more run of tokens behind several.
pub proof fn lemma_flat_step(all: Seq<Seq<u32>>, i: int)
    requires
        0 <= i < all.len(),
    ensures
        sequence::flat(all.take(i + 1)) == sequence::flat(all.take(i)) + all[i],
{
    assert(all.take(i + 1).drop_last() =~= all.take(i));
}

fn push_markers(v: &mut Vec<u32>, e: &Encoded, shift: usize, options: usize)
    requires
        e.markers@.len() <= options,
        forall|k: int|
            0 <= k < e.markers@.len() ==> shift <= #[trigger] e.markers@[k] && e.markers@[k]
                <= u32::MAX,
    ensures
        final(v)@ == old(v)@ + markers_row(*e, shift as int, options as int),
{
    let ghost before = v@;
    let ghost all = shifted(e.markers@, shift as int);
    let mut i: usize = 0;
    proof {
        assert(v@ =~= before + all.take(0));
    }
    while i < e.markers.len()
        invariant
            i <= e.markers@.len(),
            all == shifted(e.markers@, shift as int),
            forall|k: int|
                0 <= k < e.markers@.len() ==> shift <= #[trigger] e.markers@[k] && e.markers@[k]
                    <= u32::MAX,
            v@ == before + all.take(i as int),
        decreases e.markers@.len() - i,
    {
        v.push((e.markers[i] - shift) as u32);
        proof {
            assert(v@ =~= before + all.take(i + 1));
        }
        i += 1;
    }
    push_times(v, 0, options - e.markers.len());
    proof {
        assert(all.take(i as int) =~= all);
        assert(v@ =~= before + markers_row(*e, shift as int, options as int));
    }
}

/// Appends `n` times `a`, and then `b` up to `width`.
pub fn push_flags(v: &mut Vec<u32>, a: u32, n: usize, b: u32, width: usize)
    requires
        n <= width,
    ensures
        final(v)@ == old(v)@ + padded(repeated(a, n as int), width as int, b),
{
    let ghost before = v@;
    push_times(v, a, n);
    push_times(v, b, width - n);
    proof {
        assert(v@ =~= before + padded(repeated(a, n as int), width as int, b));
    }
}

/// The integer tables of a batch of rows.
pub fn tables(rows: &[Encoded], pad: u32, layout: Layout) -> (r: Tables)
    requires
        tabular(rows@),
    ensures
        r.hold(rows@, pad, layout),
{
    let (width, options) = widest(rows);
    let ghost n = rows@.len();
    let ghost w = width as int;
    let ghost k = options as int;
    let ghost ids_all = ids_rows(rows@, w, pad);
    let ghost attention_all = attention_rows(rows@, w);
    let ghost question_all = question_rows(rows@, w);
    let ghost markers_all = markers_rows(rows@, k);
    let ghost marked_all = marked_rows(rows@, k);
    let ghost qtypes_all = type_places(rows@);
    let ghost pooled_all = pooled_places(rows@, layout);
    let mut t = Tables {
        width,
        options,
        ids: Vec::new(),
        attention: Vec::new(),
        markers: Vec::new(),
        marked: Vec::new(),
        qtypes: Vec::new(),
        pooled: Vec::new(),
        question: Vec::new(),
    };
    proof {
        assert(ids_all.take(0) =~= Seq::empty());
        assert(attention_all.take(0) =~= Seq::empty());
        assert(question_all.take(0) =~= Seq::empty());
        assert(markers_all.take(0) =~= Seq::empty());
        assert(marked_all.take(0) =~= Seq::empty());
        assert(t.qtypes@ =~= qtypes_all.take(0));
        assert(t.pooled@ =~= pooled_all.take(0));
    }
    let mut i: usize = 0;
    while i < rows.len()
        invariant
            i <= rows@.len(),
            n == rows@.len(),
            w == width as int,
            k == options as int,
            tabular(rows@),
            width == most(lengths(rows@)),
            options == most(option_counts(rows@)),
            t.width == width,
            t.options == options,
            ids_all == ids_rows(rows@, w, pad),
            attention_all == attention_rows(rows@, w),
            question_all == question_rows(rows@, w),
            markers_all == markers_rows(rows@, k),
            marked_all == marked_rows(rows@, k),
            qtypes_all == type_places(rows@),
            pooled_all == pooled_places(rows@, layout),
            t.ids@ == sequence::flat(ids_all.take(i as int)),
            t.attention@ == sequence::flat(attention_all.take(i as int)),
            t.question@ == sequence::flat(question_all.take(i as int)),
            t.markers@ == sequence::flat(markers_all.take(i as int)),
            t.marked@ == sequence::flat(marked_all.take(i as int)),
            t.qtypes@ == qtypes_all.take(i as int),
            t.pooled@ == pooled_all.take(i as int),
        decreases rows@.len() - i,
    {
        let e = &rows[i];
        proof {
            lemma_most(lengths(rows@), i as int);
            lemma_most(option_counts(rows@), i as int);
            lemma_flat_step(ids_all, i as int);
            lemma_flat_step(attention_all, i as int);
            lemma_flat_step(question_all, i as int);
            lemma_flat_step(markers_all, i as int);
            lemma_flat_step(marked_all, i as int);
            assert(rows@[i as int].prefix_len <= rows@[i as int].ids@.len());
        }
        push_padded(&mut t.ids, e.ids.as_slice(), width, pad);
        push_flags(&mut t.attention, 1, e.ids.len(), 0, width);
        push_flags(&mut t.question, 0, e.prefix_len, 1, width);
        push_markers(&mut t.markers, e, 0, options);
        push_flags(&mut t.marked, 1, e.markers.len(), 0, options);
        t.qtypes.push(e.qtype.index() as u32);
        t.pooled.push(match layout {
            Layout::Laya => 0,
            Layout::Prefix => e.prefix_len as u32,
        });
        proof {
            assert(t.qtypes@ =~= qtypes_all.take(i + 1));
            assert(t.pooled@ =~= pooled_all.take(i + 1));
        }
        i += 1;
    }
    proof {
        assert(ids_all.take(i as int) =~= ids_all);
        assert(attention_all.take(i as int) =~= attention_all);
        assert(question_all.take(i as int) =~= question_all);
        assert(markers_all.take(i as int) =~= markers_all);
        assert(marked_all.take(i as int) =~= marked_all);
        assert(qtypes_all.take(i as int) =~= qtypes_all);
        assert(pooled_all.take(i as int) =~= pooled_all);
    }
    t
}

/// Runs of one length, one after another, are found at multiples of it.
pub proof fn lemma_table_cell(all: Seq<Seq<u32>>, width: int, i: int, j: int)
    requires
        0 <= i < all.len(),
        0 <= j < width,
        forall|k: int| 0 <= k < all.len() ==> (#[trigger] all[k]).len() == width,
    ensures
        sequence::flat(all).len() == all.len() * width,
        0 <= i * width + j < sequence::flat(all).len(),
        sequence::flat(all)[i * width + j] == all[i][j],
    decreases all.len(),
{
    let front = all.drop_last();
    assert forall|k: int| 0 <= k < front.len() implies (#[trigger] front[k]).len() == width by {
        assert(front[k] == all[k]);
    }
    lemma_flat_len(front, width);
    let n = all.len() as int;
    assert(sequence::flat(front).len() == (n - 1) * width);
    assert((n - 1) * width + width == n * width) by (nonlinear_arith);
    assert(i * width + j < n * width && 0 <= i * width) by (nonlinear_arith)
        requires
            0 <= i < n,
            0 <= j < width,
    ;
    if i < n - 1 {
        lemma_table_cell(front, width, i, j);
        assert(front[i] == all[i]);
    }
}

/// What a row of a batch holds does not depend on the other rows: its places hold its own tokens
/// and no others, and what lies behind them is padding that is marked as such and that no token of
/// the row sees.
pub proof fn lemma_rows_do_not_depend_on_their_batch(
    t: Tables,
    rows: Seq<Encoded>,
    pad: u32,
    layout: Layout,
    i: int,
    j: int,
    from: int,
)
    requires
        t.hold(rows, pad, layout),
        0 <= i < rows.len(),
        0 <= j < t.width,
    ensures
        ({
            let own = rows[i].ids@;
            let at = i * t.width + j;
            &&& 0 <= at < t.ids@.len()
            &&& at < t.attention@.len()
            &&& j < own.len() ==> t.ids@[at] == own[j] && t.attention@[at] == 1
            &&& j >= own.len() ==> {
                &&& t.ids@[at] == pad
                &&& t.attention@[at] == 0
                &&& !visible(own.len() as int, rows[i].prefix_len as int, from, j)
            }
        }),
{
    let w = t.width as int;
    let ids = ids_rows(rows, w, pad);
    let seen = attention_rows(rows, w);
    assert forall|k: int| 0 <= k < rows.len() implies (#[trigger] ids[k]).len() == w
        && seen[k].len() == w by {
        lemma_most(lengths(rows), k);
        assert(lengths(rows)[k] == rows[k].ids@.len());
    }
    assert forall|k: int| 0 <= k < rows.len() implies (#[trigger] seen[k]).len() == w by {
        assert(ids[k].len() == w);
    }
    lemma_table_cell(ids, w, i, j);
    lemma_table_cell(seen, w, i, j);
}

proof fn lemma_flat_len(all: Seq<Seq<u32>>, width: int)
    requires
        forall|k: int| 0 <= k < all.len() ==> (#[trigger] all[k]).len() == width,
    ensures
        sequence::flat(all).len() == all.len() * width,
    decreases all.len(),
{
    if all.len() > 0 {
        let front = all.drop_last();
        assert forall|k: int| 0 <= k < front.len() implies (#[trigger] front[k]).len() == width by {
            assert(front[k] == all[k]);
        }
        lemma_flat_len(front, width);
        let n = all.len() as int;
        assert((n - 1) * width + width == n * width) by (nonlinear_arith);
    } else {
        assert(0 * width == 0) by (nonlinear_arith);
    }
}

// ---------------------------------------------------------------------------------------------
// States that are encoded once

/// Why rows cannot share states.
#[derive(Clone, Copy, PartialEq, Eq, Structural, Debug)]
pub enum PrefixError {
    /// The model does not put the state first.
    NotPrefixLayout,
    /// There are no rows, or none in a group.
    NoRows,
    /// Rows of one group start with different states.
    NotShared,
}

impl PrefixError {
    /// The error in words.
    pub open spec fn words(self) -> Seq<char> {
        match self {
            PrefixError::NotPrefixLayout => "forward_prefix needs a prefix-layout model"@,
            PrefixError::NoRows => "no rows"@,
            PrefixError::NotShared => "rows must share one state prefix"@,
        }
    }

    /// The error in words.
    pub fn message(self) -> (r: &'static str)
        ensures
            r@ == self.words(),
    {
        match self {
            PrefixError::NotPrefixLayout => "forward_prefix needs a prefix-layout model",
            PrefixError::NoRows => "no rows",
            PrefixError::NotShared => "rows must share one state prefix",
        }
    }
}

/// The values of groups of rows.
pub open spec fn row_groups(v: Seq<&[Encoded]>) -> Seq<Seq<Encoded>> {
    Seq::new(v.len(), |i: int| v[i]@)
}

/// The rows of all groups, in order.
pub open spec fn all_rows(groups: Seq<Seq<Encoded>>) -> Seq<Encoded>
    decreases groups.len(),
{
    if groups.len() == 0 {
        Seq::empty()
    } else {
        all_rows(groups.drop_last()) + groups.last()
    }
}

/// The group that each of all rows belongs to.
pub open spec fn owners(groups: Seq<Seq<Encoded>>) -> Seq<u32>
    decreases groups.len(),
{
    if groups.len() == 0 {
        Seq::empty()
    } else {
        owners(groups.drop_last()) + repeated(
            (groups.len() - 1) as u32,
            groups.last().len() as int,
        )
    }
}

/// Whether the rows of a group start with one state.
pub open spec fn share_state(rows: Seq<Encoded>) -> bool {
    forall|i: int|
        0 <= i < rows.len() ==> {
            &&& (#[trigger] rows[i]).prefix_len == rows[0].prefix_len
            &&& agent::start_of(rows[i]) == agent::start_of(rows[0])
        }
}

/// The states of groups.
pub open spec fn states(groups: Seq<Seq<Encoded>>) -> Seq<Seq<u32>> {
    Seq::new(groups.len(), |g: int| agent::start_of(groups[g][0]))
}

/// The lengths of several runs.
pub open spec fn run_lengths(v: Seq<Seq<u32>>) -> Seq<nat> {
    Seq::new(v.len(), |i: int| v[i].len())
}

/// Why groups of rows cannot share states, if they cannot.
pub open spec fn prefix_fault(layout: Layout, groups: Seq<Seq<Encoded>>) -> Option<PrefixError> {
    if layout != Layout::Prefix {
        Some(PrefixError::NotPrefixLayout)
    } else if groups.len() == 0 || exists|g: int|
        0 <= g < groups.len() && (#[trigger] groups[g]).len() == 0 {
        Some(PrefixError::NoRows)
    } else if exists|g: int| 0 <= g < groups.len() && !share_state(#[trigger] groups[g]) {
        Some(PrefixError::NotShared)
    } else {
        None
    }
}

/// The integer tables of groups of rows that share states.
#[derive(Debug, PartialEq, Eq)]
pub struct PrefixTables {
    /// Tokens per state, padding included.
    pub state_width: usize,
    /// The state of each group, padded on the left.
    pub state_ids: Vec<u32>,
    /// The padding of each state.
    pub pads: Vec<usize>,
    /// Tokens per question, padding included.
    pub width: usize,
    /// Options per row, padding included.
    pub options: usize,
    /// What comes behind the state in each row, padded on the right.
    pub ids: Vec<u32>,
    /// How many tokens that is.
    pub lengths: Vec<usize>,
    /// The group of each row.
    pub owners: Vec<u32>,
    /// The place of each option's mask token behind the state, padded with 0.
    pub markers: Vec<u32>,
    /// 1 for an option, 0 for padding.
    pub marked: Vec<u32>,
    /// The place of each row's question type.
    pub qtypes: Vec<u32>,
}

impl PrefixTables {
    /// Whether these are the tables of the groups' states.
    pub open spec fn hold_states(self, groups: Seq<Seq<Encoded>>, pad: u32) -> bool {
        let s = states(groups);
        let w = self.state_width as int;
        &&& self.state_width == most(run_lengths(s))
        &&& self.state_ids@ == sequence::flat(state_rows(s, w, pad))
        &&& self.pads@.len() == s.len()
        &&& forall|g: int| 0 <= g < s.len() ==> (#[trigger] self.pads@[g]) == w - s[g].len()
    }

    /// Whether these are the tables of the rows' questions.
    pub open spec fn hold_rows(self, rows: Seq<Encoded>, pad: u32) -> bool {
        let n = rows.len();
        let w = self.width as int;
        let k = self.options as int;
        &&& self.width == most(own_lengths(rows))
        &&& self.options == most(option_counts(rows))
        &&& self.ids@ == sequence::flat(own_rows(rows, w, pad))
        &&& self.lengths@.len() == n
        &&& forall|i: int| 0 <= i < n ==> (#[trigger] self.lengths@[i]) == own_part(rows[i]).len()
        &&& self.markers@ == sequence::flat(
            own_markers_rows(rows, k),
        )
        &&& self.marked@ == sequence::flat(marked_rows(rows, k))
        &&& self.qtypes@ == type_places(rows)
    }
}

/// Whether the rows of a group start with one state.
fn shares(rows: &[Encoded]) -> (r: bool)
    requires
        tabular(rows@),
        rows@.len() > 0,
    ensures
        r == share_state(rows@),
{
    proof {
        assert(rows@[0].prefix_len <= rows@[0].ids@.len());
    }
    let first = &rows[0].ids.as_slice()[0..rows[0].prefix_len];
    proof {
        assert(first@ =~= agent::start_of(rows@[0]));
    }
    let mut i: usize = 0;
    while i < rows.len()
        invariant
            i <= rows@.len(),
            rows@.len() > 0,
            tabular(rows@),
            first@ == agent::start_of(rows@[0]),
            forall|k: int|
                0 <= k < i ==> {
                    &&& (#[trigger] rows@[k]).prefix_len == rows@[0].prefix_len
                    &&& agent::start_of(rows@[k]) == agent::start_of(rows@[0])
                },
        decreases rows@.len() - i,
    {
        proof {
            assert(rows@[i as int].prefix_len <= rows@[i as int].ids@.len());
        }
        if rows[i].prefix_len != rows[0].prefix_len {
            return false;
        }
        let own = &rows[i].ids.as_slice()[0..rows[i].prefix_len];
        proof {
            assert(own@ =~= agent::start_of(rows@[i as int]));
        }
        if !same_ids(own, first) {
            return false;
        }
        i += 1;
    }
    true
}

/// Whether all rows of all groups have tables.
pub open spec fn all_tabular(groups: Seq<Seq<Encoded>>) -> bool {
    forall|g: int| 0 <= g < groups.len() ==> tabular(#[trigger] groups[g])
}

fn find_fault(layout: Layout, groups: &[&[Encoded]]) -> (r: Option<PrefixError>)
    requires
        all_tabular(row_groups(groups@)),
    ensures
        r == prefix_fault(layout, row_groups(groups@)),
{
    let ghost gs = row_groups(groups@);
    if layout != Layout::Prefix {
        return Some(PrefixError::NotPrefixLayout);
    }
    if groups.len() == 0 {
        return Some(PrefixError::NoRows);
    }
    let mut g: usize = 0;
    while g < groups.len()
        invariant
            g <= groups@.len(),
            layout == Layout::Prefix,
            gs == row_groups(groups@),
            forall|k: int| 0 <= k < g ==> (#[trigger] gs[k]).len() > 0,
        decreases groups@.len() - g,
    {
        if groups[g].len() == 0 {
            proof {
                assert(gs[g as int].len() == 0);
            }
            return Some(PrefixError::NoRows);
        }
        g += 1;
    }
    g = 0;
    while g < groups.len()
        invariant
            g <= groups@.len(),
            groups@.len() > 0,
            layout == Layout::Prefix,
            gs == row_groups(groups@),
            all_tabular(gs),
            forall|k: int| 0 <= k < gs.len() ==> (#[trigger] gs[k]).len() > 0,
            forall|k: int| 0 <= k < g ==> share_state(#[trigger] gs[k]),
        decreases groups@.len() - g,
    {
        proof {
            assert(tabular(gs[g as int]));
            assert(gs[g as int].len() > 0);
        }
        if !shares(groups[g]) {
            proof {
                assert(!share_state(gs[g as int]));
            }
            return Some(PrefixError::NotShared);
        }
        g += 1;
    }
    None
}

/// The states of groups, borrowed.
fn group_states<'a>(groups: &[&'a [Encoded]]) -> (r: Vec<&'a [u32]>)
    requires
        all_tabular(row_groups(groups@)),
        forall|g: int|
            0 <= g < groups@.len() ==> (#[trigger] row_groups(groups@)[g]).len() > 0,
    ensures
        sequence::slices(r@) == states(row_groups(groups@)),
{
    let ghost gs = row_groups(groups@);
    let ghost all = states(gs);
    let mut r: Vec<&'a [u32]> = Vec::new();
    let mut g: usize = 0;
    while g < groups.len()
        invariant
            g <= groups@.len(),
            gs == row_groups(groups@),
            all == states(gs),
            all_tabular(gs),
            forall|k: int| 0 <= k < gs.len() ==> (#[trigger] gs[k]).len() > 0,
            r@.len() == g,
            forall|k: int| 0 <= k < g ==> (#[trigger] r@[k])@ == all[k],
        decreases groups@.len() - g,
    {
        proof {
            assert(tabular(gs[g as int]));
            assert(gs[g as int].len() > 0);
            assert(gs[g as int][0].prefix_len <= gs[g as int][0].ids@.len());
        }
        let rows: &'a [Encoded] = groups[g];
        let s: &'a [u32] = &rows[0].ids.as_slice()[0..rows[0].prefix_len];
        proof {
            assert(s@ =~= all[g as int]);
        }
        r.push(s);
        g += 1;
    }
    proof {
        assert(sequence::slices(r@) =~= all);
    }
    r
}

/// All rows of groups, borrowed, and the group of each.
fn list_rows<'a>(groups: &[&'a [Encoded]]) -> (r: (Vec<&'a Encoded>, Vec<u32>))
    requires
        groups@.len() <= u32::MAX,
    ensures
        r.0@.len() == all_rows(row_groups(groups@)).len(),
        forall|i: int| 0 <= i < r.0@.len() ==> *(#[trigger] r.0@[i]) == all_rows(row_groups(groups@))[i],
        r.1@ == owners(row_groups(groups@)),
        r.1@.len() == r.0@.len(),
{
    let ghost gs = row_groups(groups@);
    let mut rows: Vec<&'a Encoded> = Vec::new();
    let mut owner: Vec<u32> = Vec::new();
    let mut g: usize = 0;
    proof {
        assert(gs.take(0) =~= Seq::empty());
        assert(owner@ =~= owners(gs.take(0)));
    }
    while g < groups.len()
        invariant
            g <= groups@.len(),
            groups@.len() <= u32::MAX,
            gs == row_groups(groups@),
            rows@.len() == all_rows(gs.take(g as int)).len(),
            forall|i: int|
                0 <= i < rows@.len() ==> *(#[trigger] rows@[i]) == all_rows(gs.take(g as int))[i],
            owner@ == owners(gs.take(g as int)),
            owner@.len() == rows@.len(),
        decreases groups@.len() - g,
    {
        let own: &'a [Encoded] = groups[g];
        let ghost before = all_rows(gs.take(g as int));
        let ghost owned = owner@;
        proof {
            assert(gs.take(g + 1).drop_last() =~= gs.take(g as int));
            assert(gs.take(g + 1).last() == own@);
        }
        let mut i: usize = 0;
        while i < own.len()
            invariant
                i <= own@.len(),
                g <= u32::MAX,
                rows@.len() == before.len() + i,
                forall|k: int| 0 <= k < before.len() ==> *(#[trigger] rows@[k]) == before[k],
                forall|k: int|
                    before.len() <= k < rows@.len() ==> *(#[trigger] rows@[k]) == own@[k - before.len()],
                owner@.len() == rows@.len(),
                owner@ == owned + repeated(g as u32, i as int),
            decreases own@.len() - i,
        {
            rows.push(&own[i]);
            owner.push(g as u32);
            proof {
                assert(owner@ =~= owned + repeated(g as u32, i + 1));
            }
            i += 1;
        }
        proof {
            assert(all_rows(gs.take(g + 1)) == before + own@);
        }
        g += 1;
    }
    proof {
        assert(gs.take(g as int) =~= gs);
    }
    (rows, owner)
}

/// What is true of all rows is true of the rows of each group, and the other way round.
proof fn lemma_all_tabular(groups: Seq<Seq<Encoded>>)
    requires
        all_tabular(groups),
    ensures
        tabular(all_rows(groups)),
    decreases groups.len(),
{
    if groups.len() > 0 {
        let front = groups.drop_last();
        assert forall|g: int| 0 <= g < front.len() implies tabular(#[trigger] front[g]) by {
            assert(front[g] == groups[g]);
        }
        lemma_all_tabular(front);
        let a = all_rows(front);
        let b = groups.last();
        assert(tabular(groups[groups.len() - 1]));
        let all = all_rows(groups);
        assert forall|i: int| 0 <= i < all.len() implies {
            &&& (#[trigger] all[i]).prefix_len <= all[i].ids@.len()
            &&& all[i].ids@.len() <= u32::MAX
            &&& forall|k: int|
                0 <= k < all[i].markers@.len() ==> all[i].prefix_len <= #[trigger] all[i].markers@[k]
                    < all[i].ids@.len()
        } by {
            if i < a.len() {
                assert(all[i] == a[i]);
            } else {
                assert(all[i] == b[i - a.len()]);
            }
        }
    }
}

fn longest_run(v: &Vec<&[u32]>) -> (n: usize)
    ensures
        n == most(run_lengths(sequence::slices(v@))),
{
    let ghost all = run_lengths(sequence::slices(v@));
    let mut n: usize = 0;
    let mut i: usize = 0;
    while i < v.len()
        invariant
            i <= v@.len(),
            all == run_lengths(sequence::slices(v@)),
            n == most(all.take(i as int)),
        decreases v@.len() - i,
    {
        proof {
            assert(all.take(i + 1).drop_last() =~= all.take(i as int));
            assert(all[i as int] == v@[i as int]@.len());
        }
        if v[i].len() > n {
            n = v[i].len();
        }
        i += 1;
    }
    proof {
        assert(all.take(i as int) =~= all);
    }
    n
}

fn fill_states(t: &mut PrefixTables, groups: &[&[Encoded]], pad: u32)
    requires
        all_tabular(row_groups(groups@)),
        forall|g: int|
            0 <= g < groups@.len() ==> (#[trigger] row_groups(groups@)[g]).len() > 0,
        old(t).state_ids@.len() == 0,
        old(t).pads@.len() == 0,
    ensures
        final(t).hold_states(row_groups(groups@), pad),
        *final(t) == (PrefixTables {
            state_width: final(t).state_width,
            state_ids: final(t).state_ids,
            pads: final(t).pads,
            ..*old(t)
        }),
{
    let own = group_states(groups);
    let ghost s = states(row_groups(groups@));
    let width: usize = longest_run(&own);
    t.state_width = width;
    let ghost w = width as int;
    let ghost all = state_rows(s, w, pad);
    let ghost start = *t;
    let mut g: usize = 0;
    proof {
        assert(all.take(0) =~= Seq::empty());
        assert(t.state_ids@ =~= Seq::empty());
    }
    while g < own.len()
        invariant
            g <= own@.len(),
            sequence::slices(own@) == s,
            width == most(run_lengths(s)),
            w == width as int,
            all == state_rows(s, w, pad),
            t.state_width == width,
            t.state_ids@ == sequence::flat(all.take(g as int)),
            t.pads@.len() == g,
            forall|k: int| 0 <= k < g ==> (#[trigger] t.pads@[k]) == w - s[k].len(),
            *t == (PrefixTables { state_ids: t.state_ids, pads: t.pads, ..start }),
        decreases own@.len() - g,
    {
        proof {
            lemma_most(run_lengths(s), g as int);
            lemma_flat_step(all, g as int);
            assert(s[g as int] == own@[g as int]@);
        }
        let n: usize = width - own[g].len();
        let ghost before = t.state_ids@;
        push_times(&mut t.state_ids, pad, n);
        t.state_ids.extend_from_slice(own[g]);
        t.pads.push(n);
        proof {
            assert(t.state_ids@ =~= before + padded_left(s[g as int], w, pad));
        }
        g += 1;
    }
    proof {
        assert(sequence::slices(own@).len() == s.len());
        assert(all.take(g as int) =~= all);
    }
}

fn widest_own(rows: &Vec<&Encoded>, Ghost(all): Ghost<Seq<Encoded>>) -> (r: (usize, usize))
    requires
        tabular(all),
        rows@.len() == all.len(),
        forall|i: int| 0 <= i < rows@.len() ==> *(#[trigger] rows@[i]) == all[i],
    ensures
        r.0 == most(own_lengths(all)),
        r.1 == most(option_counts(all)),
{
    let ghost a = own_lengths(all);
    let ghost b = option_counts(all);
    let mut w: usize = 0;
    let mut k: usize = 0;
    let mut i: usize = 0;
    while i < rows.len()
        invariant
            i <= rows@.len(),
            tabular(all),
            rows@.len() == all.len(),
            forall|i: int| 0 <= i < rows@.len() ==> *(#[trigger] rows@[i]) == all[i],
            a == own_lengths(all),
            b == option_counts(all),
            w == most(a.take(i as int)),
            k == most(b.take(i as int)),
        decreases rows@.len() - i,
    {
        proof {
            assert(a.take(i + 1).drop_last() =~= a.take(i as int));
            assert(b.take(i + 1).drop_last() =~= b.take(i as int));
            assert(*rows@[i as int] == all[i as int]);
            assert(all[i as int].prefix_len <= all[i as int].ids@.len());
        }
        let n: usize = rows[i].ids.len() - rows[i].prefix_len;
        if n > w {
            w = n;
        }
        if rows[i].markers.len() > k {
            k = rows[i].markers.len();
        }
        i += 1;
    }
    proof {
        assert(a.take(i as int) =~= a);
        assert(b.take(i as int) =~= b);
    }
    (w, k)
}

fn fill_rows(t: &mut PrefixTables, rows: &Vec<&Encoded>, pad: u32, Ghost(all): Ghost<Seq<Encoded>>)
    requires
        tabular(all),
        rows@.len() == all.len(),
        forall|i: int| 0 <= i < rows@.len() ==> *(#[trigger] rows@[i]) == all[i],
        old(t).ids@.len() == 0,
        old(t).lengths@.len() == 0,
        old(t).markers@.len() == 0,
        old(t).marked@.len() == 0,
        old(t).qtypes@.len() == 0,
    ensures
        final(t).hold_rows(all, pad),
        *final(t) == (PrefixTables {
            width: final(t).width,
            options: final(t).options,
            ids: final(t).ids,
            lengths: final(t).lengths,
            markers: final(t).markers,
            marked: final(t).marked,
            qtypes: final(t).qtypes,
            ..*old(t)
        }),
{
    let (width, options) = widest_own(rows, Ghost(all));
    t.width = width;
    t.options = options;
    let ghost n = all.len();
    let ghost w = width as int;
    let ghost k = options as int;
    let ghost ids_all = own_rows(all, w, pad);
    let ghost markers_all = own_markers_rows(all, k);
    let ghost marked_all = marked_rows(all, k);
    let ghost qtypes_all = type_places(all);
    let ghost start = *t;
    proof {
        assert(ids_all.take(0) =~= Seq::empty());
        assert(markers_all.take(0) =~= Seq::empty());
        assert(marked_all.take(0) =~= Seq::empty());
        assert(t.ids@ =~= Seq::empty());
        assert(t.markers@ =~= Seq::empty());
        assert(t.marked@ =~= Seq::empty());
        assert(t.qtypes@ =~= qtypes_all.take(0));
    }
    let mut i: usize = 0;
    while i < rows.len()
        invariant
            i <= rows@.len(),
            n == all.len(),
            w == width as int,
            k == options as int,
            tabular(all),
            rows@.len() == all.len(),
            forall|i: int| 0 <= i < rows@.len() ==> *(#[trigger] rows@[i]) == all[i],
            width == most(own_lengths(all)),
            options == most(option_counts(all)),
            t.width == width,
            t.options == options,
            ids_all == own_rows(all, w, pad),
            markers_all == own_markers_rows(all, k),
            marked_all == marked_rows(all, k),
            qtypes_all == type_places(all),
            t.ids@ == sequence::flat(ids_all.take(i as int)),
            t.markers@ == sequence::flat(markers_all.take(i as int)),
            t.marked@ == sequence::flat(marked_all.take(i as int)),
            t.qtypes@ == qtypes_all.take(i as int),
            t.lengths@.len() == i,
            forall|j: int| 0 <= j < i ==> (#[trigger] t.lengths@[j]) == own_part(all[j]).len(),
            *t == (PrefixTables {
                ids: t.ids,
                lengths: t.lengths,
                markers: t.markers,
                marked: t.marked,
                qtypes: t.qtypes,
                ..start
            }),
        decreases rows@.len() - i,
    {
        let e = rows[i];
        proof {
            assert(*rows@[i as int] == all[i as int]);
            assert(all[i as int].prefix_len <= all[i as int].ids@.len());
            lemma_most(own_lengths(all), i as int);
            lemma_most(option_counts(all), i as int);
            lemma_flat_step(ids_all, i as int);
            lemma_flat_step(markers_all, i as int);
            lemma_flat_step(marked_all, i as int);
        }
        let end: usize = e.ids.len();
        let own = &e.ids.as_slice()[e.prefix_len..end];
        proof {
            assert(own@ =~= own_part(all[i as int]));
        }
        push_padded(&mut t.ids, own, width, pad);
        push_markers(&mut t.markers, e, e.prefix_len, options);
        push_flags(&mut t.marked, 1, e.markers.len(), 0, options);
        t.lengths.push(own.len());
        t.qtypes.push(e.qtype.index() as u32);
        proof {
            assert(t.qtypes@ =~= qtypes_all.take(i + 1));
        }
        i += 1;
    }
    proof {
        assert(ids_all.take(i as int) =~= ids_all);
        assert(markers_all.take(i as int) =~= markers_all);
        assert(marked_all.take(i as int) =~= marked_all);
        assert(qtypes_all.take(i as int) =~= qtypes_all);
    }
}

/// The integer tables of groups of rows, each about one state: the states are encoded together,
/// padded on the left, and then every row against its own state. Rows follow the groups in order.
pub fn prefix_tables(layout: Layout, groups: &[&[Encoded]], pad: u32) -> (r: Result<
    PrefixTables,
    PrefixError,
>)
    requires
        all_tabular(row_groups(groups@)),
        groups@.len() <= u32::MAX,
    ensures
        match r {
            Ok(t) => {
                let gs = row_groups(groups@);
                &&& prefix_fault(layout, gs) is None
                &&& t.hold_states(gs, pad)
                &&& t.hold_rows(all_rows(gs), pad)
                &&& t.owners@ == owners(gs)
            },
            Err(e) => prefix_fault(layout, row_groups(groups@)) == Some(e),
        },
{
    match find_fault(layout, groups) {
        Some(e) => return Err(e),
        None => {},
    }
    let ghost gs = row_groups(groups@);
    proof {
        assert forall|g: int| 0 <= g < groups@.len() implies (#[trigger] row_groups(
            groups@,
        )[g]).len() > 0 by {
            assert(gs[g].len() != 0);
        }
        lemma_all_tabular(gs);
    }
    let (rows, owners) = list_rows(groups);
    let mut t = PrefixTables {
        state_width: 0,
        state_ids: Vec::new(),
        pads: Vec::new(),
        width: 0,
        options: 0,
        ids: Vec::new(),
        lengths: Vec::new(),
        owners,
        markers: Vec::new(),
        marked: Vec::new(),
        qtypes: Vec::new(),
    };
    fill_states(&mut t, groups, pad);
    fill_rows(&mut t, &rows, pad, Ghost(all_rows(gs)));
    Ok(t)
}

// ---------------------------------------------------------------------------------------------
// What tables tell

proof fn lemma_padded_rows(rows: Seq<Encoded>, i: int)
    requires
        0 <= i < rows.len(),
    ensures
        rows[i].ids@.len() <= most(lengths(rows)),
        rows[i].markers@.len() <= most(option_counts(rows)),
        own_part(rows[i]).len() <= most(own_lengths(rows)),
{
    lemma_most(lengths(rows), i);
    lemma_most(option_counts(rows), i);
    lemma_most(own_lengths(rows), i);
    assert(lengths(rows)[i] == rows[i].ids@.len());
    assert(option_counts(rows)[i] == rows[i].markers@.len());
    assert(own_lengths(rows)[i] == own_part(rows[i]).len());
}

/// A batch tells the state from the question, says of each row what type its question has and which
/// token stands for it, and is no wider than its longest row.
pub proof fn lemma_tables_tell_questions_from_states(
    t: Tables,
    rows: Seq<Encoded>,
    pad: u32,
    layout: Layout,
    i: int,
    j: int,
)
    requires
        t.hold(rows, pad, layout),
        tabular(rows),
        0 <= i < rows.len(),
        0 <= j < t.width,
    ensures
        t.question@[i * t.width + j] == if j < rows[i].prefix_len {
            0u32
        } else {
            1
        },
        t.qtypes@.len() == rows.len(),
        t.qtypes@[i] == match rows[i].qtype {
            sequence::QType::Choice => 0u32,
            sequence::QType::Score => 1,
            sequence::QType::Noul => 2,
        },
        t.pooled@.len() == rows.len(),
        layout == Layout::Laya ==> t.pooled@[i] == 0,
        layout == Layout::Prefix ==> t.pooled@[i] == rows[i].prefix_len,
        exists|k: int| 0 <= k < rows.len() && (#[trigger] rows[k]).ids@.len() == t.width,
{
    let w = t.width as int;
    let all = question_rows(rows, w);
    assert forall|k: int| 0 <= k < all.len() implies (#[trigger] all[k]).len() == w by {
        lemma_padded_rows(rows, k);
        assert(rows[k].prefix_len <= rows[k].ids@.len());
    }
    lemma_table_cell(all, w, i, j);
    assert(rows[i].prefix_len <= rows[i].ids@.len());
    let k = lemma_most_is_one(lengths(rows));
    assert(rows[k].ids@.len() == t.width);
}

/// The largest of several lengths is one of them.
proof fn lemma_most_is_one(v: Seq<nat>) -> (k: int)
    requires
        v.len() > 0,
        most(v) > 0,
    ensures
        0 <= k < v.len(),
        v[k] == most(v),
    decreases v.len(),
{
    if v.last() > most(v.drop_last()) {
        v.len() - 1
    } else {
        lemma_most_is_one(v.drop_last())
    }
}

/// A batch points at the options: each option of a row is marked and its place is that of its own
/// mask token, and what is left of the row's options is not marked.
pub proof fn lemma_tables_point_at_options(
    t: Tables,
    rows: Seq<Encoded>,
    pad: u32,
    layout: Layout,
    i: int,
    k: int,
)
    requires
        t.hold(rows, pad, layout),
        tabular(rows),
        0 <= i < rows.len(),
        0 <= k < t.options,
    ensures
        ({
            let at = i * t.options + k;
            &&& k < rows[i].markers@.len() ==> {
                &&& t.marked@[at] == 1
                &&& t.markers@[at] == rows[i].markers@[k]
                &&& t.ids@[i * t.width + t.markers@[at]] == rows[i].ids@[rows[i].markers@[k] as int]
            }
            &&& k >= rows[i].markers@.len() ==> t.marked@[at] == 0 && t.markers@[at] == 0
        }),
{
    let n = t.options as int;
    let places = markers_rows(rows, n);
    let marks = marked_rows(rows, n);
    assert forall|m: int| 0 <= m < rows.len() implies (#[trigger] places[m]).len() == n by {
        lemma_padded_rows(rows, m);
    }
    assert forall|m: int| 0 <= m < rows.len() implies (#[trigger] marks[m]).len() == n by {
        lemma_padded_rows(rows, m);
    }
    lemma_table_cell(places, n, i, k);
    lemma_table_cell(marks, n, i, k);
    if k < rows[i].markers@.len() {
        let m = rows[i].markers@[k] as int;
        assert(m < rows[i].ids@.len());
        lemma_padded_rows(rows, i);
        lemma_rows_do_not_depend_on_their_batch(t, rows, pad, layout, i, m, 0);
    }
}

/// States that are encoded once stand at the right of their rows, and what comes before them is
/// padding, as much as is said.
pub proof fn lemma_states_stand_at_the_right(
    t: PrefixTables,
    groups: Seq<Seq<Encoded>>,
    pad: u32,
    g: int,
    j: int,
)
    requires
        t.hold_states(groups, pad),
        all_tabular(groups),
        0 <= g < groups.len(),
        groups[g].len() > 0,
        0 <= j < t.state_width,
    ensures
        ({
            let e = groups[g][0];
            &&& t.pads@[g] + e.prefix_len == t.state_width
            &&& j < t.pads@[g] ==> t.state_ids@[g * t.state_width + j] == pad
            &&& j >= t.pads@[g] ==> t.state_ids@[g * t.state_width + j] == e.ids@[j - t.pads@[g]]
        }),
{
    let w = t.state_width as int;
    let s = states(groups);
    let all = state_rows(s, w, pad);
    assert forall|k: int| 0 <= k < all.len() implies (#[trigger] all[k]).len() == w by {
        lemma_most(run_lengths(s), k);
        assert(run_lengths(s)[k] == s[k].len());
    }
    lemma_table_cell(all, w, g, j);
    assert(tabular(groups[g]));
    let e = groups[g][0];
    assert(e.prefix_len <= e.ids@.len());
    assert(s[g] == e.ids@.take(e.prefix_len as int));
    assert(t.pads@[g] == w - s[g].len());
}

/// Behind a shared state every row keeps its own tokens, and the places of its options are counted
/// from there: the tables point at the tokens that the row's own places point at.
pub proof fn lemma_rows_keep_what_follows_the_state(
    t: PrefixTables,
    rows: Seq<Encoded>,
    pad: u32,
    i: int,
    j: int,
    k: int,
)
    requires
        t.hold_rows(rows, pad),
        tabular(rows),
        0 <= i < rows.len(),
        0 <= j < t.width,
        0 <= k < t.options,
    ensures
        ({
            let e = rows[i];
            let at = i * t.options + k;
            &&& t.lengths@[i] + e.prefix_len == e.ids@.len()
            &&& t.ids@[i * t.width + j] == if j < t.lengths@[i] {
                e.ids@[e.prefix_len + j]
            } else {
                pad
            }
            &&& k < e.markers@.len() ==> {
                &&& t.marked@[at] == 1
                &&& t.markers@[at] + e.prefix_len == e.markers@[k]
                &&& t.ids@[i * t.width + t.markers@[at]] == e.ids@[e.markers@[k] as int]
            }
            &&& k >= e.markers@.len() ==> t.marked@[at] == 0 && t.markers@[at] == 0
            &&& t.qtypes@[i] == match e.qtype {
                sequence::QType::Choice => 0u32,
                sequence::QType::Score => 1,
                sequence::QType::Noul => 2,
            }
        }),
{
    let w = t.width as int;
    let n = t.options as int;
    let ids = own_rows(rows, w, pad);
    let places = own_markers_rows(rows, n);
    let marks = marked_rows(rows, n);
    assert forall|m: int| 0 <= m < rows.len() implies (#[trigger] ids[m]).len() == w by {
        lemma_padded_rows(rows, m);
    }
    assert forall|m: int| 0 <= m < rows.len() implies (#[trigger] places[m]).len() == n by {
        lemma_padded_rows(rows, m);
    }
    assert forall|m: int| 0 <= m < rows.len() implies (#[trigger] marks[m]).len() == n by {
        lemma_padded_rows(rows, m);
    }
    let e = rows[i];
    assert(e.prefix_len <= e.ids@.len());
    assert(t.lengths@[i] == own_part(e).len());
    lemma_table_cell(ids, w, i, j);
    lemma_table_cell(places, n, i, k);
    lemma_table_cell(marks, n, i, k);
    if k < e.markers@.len() {
        assert(e.prefix_len <= e.markers@[k] < e.ids@.len());
        lemma_padded_rows(rows, i);
        let m = e.markers@[k] - e.prefix_len;
        assert(t.markers@[i * n + k] == m);
        lemma_table_cell(ids, w, i, m);
        assert(own_part(e)[m] == e.ids@[e.prefix_len + m]);
    }
}

/// Every row belongs to the group that it came from: its owner is that group's place, and the row
/// is one of that group's.
pub proof fn lemma_rows_belong_to_their_groups(groups: Seq<Seq<Encoded>>, i: int)
    requires
        groups.len() <= u32::MAX,
        0 <= i < all_rows(groups).len(),
    ensures
        owners(groups).len() == all_rows(groups).len(),
        0 <= owners(groups)[i] < groups.len(),
        groups[owners(groups)[i] as int].contains(all_rows(groups)[i]),
    decreases groups.len(),
{
    let less = groups.drop_last();
    lemma_owners_len(less);
    let n = all_rows(less).len();
    if i < n {
        lemma_rows_belong_to_their_groups(less, i);
        assert(less[owners(less)[i] as int] == groups[owners(less)[i] as int]);
    } else {
        assert(all_rows(groups)[i] == groups.last()[i - n]);
        assert(owners(groups)[i] == groups.len() - 1);
    }
}

proof fn lemma_owners_len(groups: Seq<Seq<Encoded>>)
    ensures
        owners(groups).len() == all_rows(groups).len(),
    decreases groups.len(),
{
    if groups.len() > 0 {
        lemma_owners_len(groups.drop_last());
    }
}

/// Where rows may share states, each row of a group starts with the state that is encoded for it.
pub proof fn lemma_shared_states_are_the_rows_own(
    layout: Layout,
    groups: Seq<Seq<Encoded>>,
    g: int,
    i: int,
    j: int,
)
    requires
        prefix_fault(layout, groups) is None,
        all_tabular(groups),
        0 <= g < groups.len(),
        0 <= i < groups[g].len(),
        0 <= j < groups[g][i].prefix_len,
    ensures
        layout == Layout::Prefix,
        groups[g][i].prefix_len == groups[g][0].prefix_len,
        groups[g][i].ids@[j] == groups[g][0].ids@[j],
{
    assert(share_state(groups[g]));
    assert(tabular(groups[g]));
    let e = groups[g][i];
    let f = groups[g][0];
    assert(e.prefix_len <= e.ids@.len() && f.prefix_len <= f.ids@.len());
    assert(agent::start_of(e)[j] == e.ids@[j]);
    assert(agent::start_of(f)[j] == f.ids@[j]);
}

/// A token of the question sees its whole row; one of the state sees the whole state; a place sees
/// another in a sliding window exactly when it is seen.
pub proof fn lemma_questions_see_their_row(
    len: int,
    prefix: int,
    half_window: int,
    i: int,
    j: int,
)
    requires
        0 <= prefix <= len,
        0 <= i < len,
        0 <= j < len,
        half_window >= 0,
    ensures
        i >= prefix ==> visible(len, prefix, i, j),
        j < prefix ==> visible(len, prefix, i, j),
        i < prefix && j >= prefix ==> !visible(len, prefix, i, j),
        near(half_window, i, j) == near(half_window, j, i),
        near(half_window, i, i + half_window),
        !near(half_window, i, i + half_window + 1),
{
}

/// Rows share states where the state comes first, there is a row in every group, and the rows of
/// each group start alike; else the first that does not hold is said.
pub proof fn lemma_sharing_fails_for_a_reason(layout: Layout, groups: Seq<Seq<Encoded>>, g: int)
    ensures
        layout == Layout::Laya <==> prefix_fault(layout, groups) == Some(
            PrefixError::NotPrefixLayout,
        ),
        layout == Layout::Prefix && groups.len() == 0 ==> prefix_fault(layout, groups) == Some(
            PrefixError::NoRows,
        ),
        layout == Layout::Prefix && 0 <= g < groups.len() && groups[g].len() == 0 ==> prefix_fault(
            layout,
            groups,
        ) == Some(PrefixError::NoRows),
        prefix_fault(layout, groups) is None && 0 <= g < groups.len() ==> groups[g].len() > 0
            && share_state(groups[g]),
        layout == Layout::Prefix && groups.len() > 0 && (forall|k: int|
            0 <= k < groups.len() ==> (#[trigger] groups[k]).len() > 0 && share_state(groups[k]))
            ==> prefix_fault(layout, groups) is None,
{
}

} // verus!
