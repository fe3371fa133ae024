//! Dataset converters: AG News and BoolQ into training records, and records made up for tests.

use vstd::prelude::*;
use vstd::string::*;

use crate::data::{self, TargetV};
use crate::json::{self, add_member, add_value, get, natural, string, Json, JsonV, NumV};
use crate::random::{self, Rng};
use crate::sequence::{self, CriteriaV, QType, QuestionErrorV, QuestionV};
use crate::text::{self, chars_of, decimal, find_from, join, parse_nat, split_words, text_of, trim};

verus! {

broadcast use crate::json::lemma_tree;

// ---------------------------------------------------------------------------------------------
// Comma-separated values

/// What has been read of a text of comma-separated values.
#[verifier::ext_equal]
pub struct CsvV {
    pub rows: Seq<Seq<Seq<char>>>,
    pub row: Seq<Seq<char>>,
    pub field: Seq<char>,
    pub quoted: bool,
}

impl CsvV {
    /// One more character of the field.
    pub open spec fn with(self, c: char) -> CsvV {
        CsvV { field: self.field.push(c), ..self }
    }

    /// The field is done.
    pub open spec fn end_field(self) -> CsvV {
        CsvV { row: self.row.push(self.field), field: Seq::empty(), ..self }
    }

    /// The row is done.
    pub open spec fn end_row(self) -> CsvV {
        CsvV {
            rows: self.rows.push(self.row.push(self.field)),
            row: Seq::empty(),
            field: Seq::empty(),
            ..self
        }
    }
}

/// What has been read once `s` is read as well. Inside quotes a doubled quote stands for one, and
/// anything else for itself.
pub open spec fn csv_read(s: Seq<char>, st: CsvV) -> CsvV
    decreases s.len(),
{
    if s.len() == 0 {
        st
    } else if st.quoted {
        if s[0] != '"' {
            csv_read(s.skip(1), st.with(s[0]))
        } else if s.len() > 1 && s[1] == '"' {
            csv_read(s.skip(2), st.with('"'))
        } else {
            csv_read(s.skip(1), CsvV { quoted: false, ..st })
        }
    } else if s[0] == '"' {
        csv_read(s.skip(1), CsvV { quoted: true, ..st })
    } else if s[0] == ',' {
        csv_read(s.skip(1), st.end_field())
    } else if s[0] == '\n' {
        csv_read(s.skip(1), st.end_row())
    } else if s[0] == '\r' {
        csv_read(s.skip(1), st)
    } else {
        csv_read(s.skip(1), st.with(s[0]))
    }
}

/// Nothing read yet.
pub open spec fn csv_start() -> CsvV {
    CsvV { rows: Seq::empty(), row: Seq::empty(), field: Seq::empty(), quoted: false }
}

/// The rows of a text of comma-separated values.
pub open spec fn csv_rows(s: Seq<char>) -> Seq<Seq<Seq<char>>> {
    let st = csv_read(s, csv_start());
    if st.field.len() > 0 || st.row.len() > 0 {
        st.end_row().rows
    } else {
        st.rows
    }
}

/// The texts of several rows.
pub open spec fn row_texts(v: Seq<Vec<String>>) -> Seq<Seq<Seq<char>>> {
    Seq::new(v.len(), |i: int| text::texts(v[i]@))
}

fn push_row(rows: &mut Vec<Vec<String>>, row: Vec<String>)
    ensures
        row_texts(final(rows)@) == row_texts(old(rows)@).push(text::texts(row@)),
{
    let ghost before = row_texts(rows@);
    let ghost value = text::texts(row@);
    rows.push(row);
    proof {
        assert(row_texts(rows@) =~= before.push(value));
    }
}

/// The rows of a text of comma-separated values (quoted fields, doubled quotes, line breaks
/// inside quotes).
pub fn parse_csv(s: &str) -> (r: Vec<Vec<String>>)
    ensures
        row_texts(r@) == csv_rows(s@),
{
    let v = chars_of(s);
    let n: usize = v.len();
    let mut rows: Vec<Vec<String>> = Vec::new();
    let mut row: Vec<String> = Vec::new();
    let mut field = String::new();
    let mut quoted = false;
    let mut i: usize = 0;
    proof {
        assert(v@.skip(0) =~= s@);
        assert(row_texts(rows@) =~= Seq::empty());
        assert(text::texts(row@) =~= Seq::empty());
        assert(field@ =~= Seq::empty());
    }
    while i < n
        invariant
            v@ == s@,
            n == v@.len(),
            i <= n,
            csv_read(
                s@.skip(i as int),
                CsvV { rows: row_texts(rows@), row: text::texts(row@), field: field@, quoted },
            ) == csv_read(s@, csv_start()),
        decreases n - i,
    {
        let c = v[i];
        let ghost rest = s@.skip(i as int);
        let ghost st = CsvV {
            rows: row_texts(rows@),
            row: text::texts(row@),
            field: field@,
            quoted,
        };
        proof {
            assert(rest[0] == c);
            assert(rest.skip(1) =~= s@.skip(i + 1));
            if i + 1 < n {
                assert(rest[1] == v@[i + 1]);
                assert(rest.skip(2) =~= s@.skip(i + 2));
            }
        }
        if quoted {
            if c != '"' {
                field.push(c);
                i += 1;
            } else if i + 1 < n && v[i + 1] == '"' {
                field.push('"');
                i += 2;
            } else {
                quoted = false;
                i += 1;
            }
        } else if c == '"' {
            quoted = true;
            i += 1;
        } else if c == ',' {
            text::texts_push(&mut row, field);
            field = String::new();
            i += 1;
            proof {
                assert(field@ =~= Seq::empty());
            }
        } else if c == '\n' {
            text::texts_push(&mut row, field);
            field = String::new();
            push_row(&mut rows, row);
            row = Vec::new();
            i += 1;
            proof {
                assert(field@ =~= Seq::empty());
                assert(text::texts(row@) =~= Seq::empty());
            }
        } else if c == '\r' {
            i += 1;
        } else {
            field.push(c);
            i += 1;
        }
    }
    proof {
        assert(s@.skip(i as int) =~= Seq::empty());
        assert(text::texts(row@).len() == row@.len());
    }
    if field.as_str().unicode_len() > 0 || row.len() > 0 {
        text::texts_push(&mut row, field);
        push_row(&mut rows, row);
    }
    rows
}

/// A text inside quotes, its own quotes doubled.
pub open spec fn doubled(s: Seq<char>) -> Seq<char>
    decreases s.len(),
{
    if s.len() == 0 {
        Seq::empty()
    } else if s[0] == '"' {
        seq!['"', '"'] + doubled(s.skip(1))
    } else {
        seq![s[0]] + doubled(s.skip(1))
    }
}

/// A field in quotes.
pub open spec fn quoted_field(s: Seq<char>) -> Seq<char> {
    seq!['"'] + doubled(s) + seq!['"']
}

/// A row of quoted fields, and the line break that ends it.
pub open spec fn quoted_row(fields: Seq<Seq<char>>) -> Seq<char>
    decreases fields.len(),
{
    if fields.len() == 0 {
        seq!['\n']
    } else if fields.len() == 1 {
        quoted_field(fields[0]) + seq!['\n']
    } else {
        quoted_field(fields[0]) + seq![','] + quoted_row(fields.skip(1))
    }
}

proof fn lemma_read_doubled(f: Seq<char>, rest: Seq<char>, st: CsvV)
    requires
        st.quoted,
        rest.len() > 0,
        rest[0] != '"',
    ensures
        csv_read(doubled(f) + seq!['"'] + rest, st) == csv_read(
            rest,
            CsvV { field: st.field + f, quoted: false, ..st },
        ),
    decreases f.len(),
{
    let s = doubled(f) + seq!['"'] + rest;
    if f.len() == 0 {
        assert(s =~= seq!['"'] + rest);
        assert(s.skip(1) =~= rest);
        assert(st.field + f =~= st.field);
        assert(s.len() > 1 && s[1] == rest[0]);
    } else {
        let g = f.skip(1);
        let t = doubled(g) + seq!['"'] + rest;
        let more = st.with(f[0]);
        lemma_read_doubled(g, rest, more);
        assert(more.field + g =~= st.field + f);
        if f[0] == '"' {
            assert(s =~= seq!['"', '"'] + t);
            assert(s.skip(2) =~= t);
        } else {
            assert(s =~= seq![f[0]] + t);
            assert(s.skip(1) =~= t);
        }
    }
}

proof fn lemma_read_field(f: Seq<char>, rest: Seq<char>, st: CsvV)
    requires
        !st.quoted,
        st.field.len() == 0,
        rest.len() > 0,
        rest[0] != '"',
    ensures
        csv_read(quoted_field(f) + rest, st) == csv_read(rest, CsvV { field: f, ..st }),
{
    let s = quoted_field(f) + rest;
    assert(s[0] == '"');
    assert(s.skip(1) =~= doubled(f) + seq!['"'] + rest);
    lemma_read_doubled(f, rest, CsvV { quoted: true, ..st });
    assert(st.field + f =~= f);
}

proof fn lemma_read_row(fields: Seq<Seq<char>>, st: CsvV)
    requires
        fields.len() > 0,
        !st.quoted,
        st.field.len() == 0,
    ensures
        csv_read(quoted_row(fields), st) == (CsvV {
            rows: st.rows.push(st.row + fields),
            row: Seq::empty(),
            field: Seq::empty(),
            quoted: false,
        }),
    decreases fields.len(),
{
    let f = fields[0];
    if fields.len() == 1 {
        lemma_read_field(f, seq!['\n'], st);
        let end = CsvV { field: f, ..st };
        reveal_with_fuel(csv_read, 2);
        assert(seq!['\n'].skip(1) =~= Seq::empty());
        assert(end.end_row().rows =~= st.rows.push(st.row + fields)) by {
            assert(st.row.push(f) =~= st.row + fields);
        }
    } else {
        let more = fields.skip(1);
        let rest = seq![','] + quoted_row(more);
        assert(quoted_row(fields) =~= quoted_field(f) + rest);
        lemma_read_field(f, rest, st);
        assert(rest.skip(1) =~= quoted_row(more));
        let next = CsvV { field: f, ..st }.end_field();
        lemma_read_row(more, next);
        assert(next.row + more =~= st.row + fields);
    }
}

/// Reading gives back what quoting wrote: a row of fields, each in quotes with its own quotes
/// doubled, is that row, whatever commas, quotes and line breaks its fields hold.
pub proof fn lemma_reading_gives_back_quoted_rows(fields: Seq<Seq<char>>)
    requires
        fields.len() > 0,
    ensures
        csv_rows(quoted_row(fields)) == seq![fields],
{
    lemma_read_row(fields, csv_start());
    assert(Seq::<Seq<char>>::empty() + fields =~= fields);
    assert(csv_rows(quoted_row(fields)) =~= seq![fields]);
}

// ---------------------------------------------------------------------------------------------
// AG News

/// Whether a number is a character's.
pub open spec fn scalar(n: nat) -> bool {
    n < 0xD800 || (0xE000 <= n && n <= 0x10FFFF)
}

/// `char::from_u32` of the standard library: the character of a number, where it is one's.
pub assume_specification[ std::char::from_u32 ](i: u32) -> (r: Option<char>)
    ensures
        r == (if scalar(i as nat) {
            Some(i as char)
        } else {
            None
        }),
;

/// The character that an escape at the start of a text stands for, and the escape's length: `#`,
/// a character's number, and `;`.
pub open spec fn escape_at(s: Seq<char>) -> Option<(char, int)> {
    let j = text::first_at(s.skip(1), ';');
    if j < s.len() - 1 {
        match text::read_nat(s.subrange(1, 1 + j), u32::MAX as nat) {
            Some(n) => if scalar(n) {
                Some((n as char, j + 2))
            } else {
                None
            },
            None => None,
        }
    } else {
        None
    }
}

/// A text with its escapes resolved and its backslashes, which are line breaks, made spaces.
pub open spec fn unescaped(s: Seq<char>) -> Seq<char>
    decreases s.len(),
{
    if s.len() == 0 {
        Seq::empty()
    } else if s[0] == '\\' {
        seq![' '] + unescaped(s.skip(1))
    } else if s[0] == '#' {
        match escape_at(s) {
            Some((c, n)) => if 0 < n <= s.len() {
                seq![c] + unescaped(s.skip(n))
            } else {
                Seq::empty()
            },
            None => seq!['#'] + unescaped(s.skip(1)),
        }
    } else {
        seq![s[0]] + unescaped(s.skip(1))
    }
}

/// A text of AG News as it is meant: unescaped, and with single spaces between words.
pub open spec fn cleaned(s: Seq<char>) -> Seq<char> {
    text::joined(text::words(unescaped(text::trimmed(s))), " "@)
}

/// A text of AG News as it is meant.
pub fn clean_ag(s: &str) -> (r: String)
    ensures
        r@ == cleaned(s@),
{
    let t = trim(s);
    let v = chars_of(t.as_str());
    let n: usize = v.len();
    let mut out = String::new();
    let mut i: usize = 0;
    proof {
        assert(v@.skip(0) =~= v@);
        assert(out@ + unescaped(v@) =~= unescaped(v@));
    }
    while i < n
        invariant
            n == v@.len(),
            i <= n,
            out@ + unescaped(v@.skip(i as int)) == unescaped(v@),
        decreases n - i,
    {
        let ghost rest = v@.skip(i as int);
        let ghost before = out@;
        proof {
            assert(rest[0] == v@[i as int]);
            assert(rest.skip(1) =~= v@.skip(i + 1));
        }
        if v[i] == '\\' {
            out.push(' ');
            i += 1;
        } else if v[i] == '#' {
            let k: usize = find_from(&v, i + 1, ';');
            let mut code: Option<char> = None;
            if k < n {
                let digits = text_of(&v, i + 1, k);
                proof {
                    assert(digits@ =~= rest.subrange(1, k - i));
                }
                match parse_nat(digits.as_str(), u32::MAX as u64) {
                    Some(m) => {
                        code = std::char::from_u32(m as u32);
                    },
                    None => {},
                }
            }
            match code {
                Some(c) => {
                    out.push(c);
                    proof {
                        assert(rest.skip(k - i + 1) =~= v@.skip(k + 1));
                    }
                    i = k + 1;
                },
                None => {
                    out.push('#');
                    i += 1;
                },
            }
        } else {
            out.push(v[i]);
            i += 1;
        }
        proof {
            assert(out@ + unescaped(v@.skip(i as int)) =~= before + unescaped(rest));
        }
    }
    proof {
        assert(v@.skip(i as int) =~= Seq::empty());
        assert(out@ =~= unescaped(v@));
    }
    let w = split_words(out.as_str());
    join(&w, " ")
}

/// A section of AG News, in class order, with the criterion it is shown with.
pub open spec fn section(class: int) -> (Seq<char>, Seq<char>) {
    if class == 1 {
        ("world"@, "international news: politics, conflicts, elections and diplomacy"@)
    } else if class == 2 {
        ("sports"@, "sports: games, teams, athletes and competitions"@)
    } else if class == 3 {
        ("business"@, "business: companies, markets, the economy and finance"@)
    } else {
        (
            "science_tech"@,
            "science and technology: computing, the internet, research and space"@,
        )
    }
}

fn section_of(class: u64) -> (r: (&'static str, &'static str))
    ensures
        (r.0@, r.1@) == section(class as int),
{
    if class == 1 {
        ("world", "international news: politics, conflicts, elections and diplomacy")
    } else if class == 2 {
        ("sports", "sports: games, teams, athletes and competitions")
    } else if class == 3 {
        ("business", "business: companies, markets, the economy and finance")
    } else {
        ("science_tech", "science and technology: computing, the internet, research and space")
    }
}

/// The sections as criteria.
pub open spec fn sections() -> Seq<(Seq<char>, JsonV)> {
    Seq::new(4, |i: int| (section(i + 1).0, JsonV::String(section(i + 1).1)))
}

/// A record with one question.
pub open spec fn one_question(
    state: Seq<char>,
    id: Seq<char>,
    question: JsonV,
    target: JsonV,
) -> JsonV {
    JsonV::Object(
        seq![
            ("state"@, JsonV::String(state)),
            ("questions"@, JsonV::Object(seq![(id, question)])),
            ("targets"@, JsonV::Object(seq![(id, target)])),
        ],
    )
}

fn build_record(state: &str, id: &str, question: Json, target: Json) -> (r: Json)
    ensures
        r@ == one_question(state@, id@, question@, target@),
{
    let mut q: Vec<(String, Json)> = Vec::new();
    add_member(&mut q, id, question);
    let mut t: Vec<(String, Json)> = Vec::new();
    add_member(&mut t, id, target);
    proof {
        assert(json::members(q@) =~= seq![(id@, question@)]);
        assert(json::members(t@) =~= seq![(id@, target@)]);
    }
    let mut o: Vec<(String, Json)> = Vec::new();
    add_member(&mut o, "state", string(state));
    add_member(&mut o, "questions", Json::Object(q));
    add_member(&mut o, "targets", Json::Object(t));
    proof {
        assert(json::members(o@) =~= one_question(state@, id@, question@, target@)->Object_0);
    }
    Json::Object(o)
}

/// The question that asks for an article's section.
pub open spec fn section_question() -> JsonV {
    JsonV::Object(
        seq![
            ("t"@, JsonV::String("choice"@)),
            ("ins"@, JsonV::String("Which section of a news site does this article belong in?"@)),
            ("crit"@, JsonV::Object(sections())),
        ],
    )
}

/// Why a row of AG News is no article.
#[derive(Clone, Copy, PartialEq, Eq, Structural, Debug)]
pub enum RowError {
    /// It has fewer than three columns.
    Columns,
    /// Its class is no number.
    Class,
    /// There is no such class.
    NoSuchClass(u64),
}

/// The record of a row of AG News: class, title and description.
pub open spec fn article(row: Seq<Seq<char>>) -> Result<JsonV, RowError> {
    if row.len() < 3 {
        Err(RowError::Columns)
    } else {
        match text::read_nat(text::trimmed(row[0]), usize::MAX as nat) {
            None => Err(RowError::Class),
            Some(class) => if class < 1 || class > 4 {
                Err(RowError::NoSuchClass(class as u64))
            } else {
                Ok(
                    one_question(
                        cleaned(row[1]) + "\n"@ + cleaned(row[2]),
                        "topic"@,
                        section_question(),
                        JsonV::String(section(class as int).0),
                    ),
                )
            },
        }
    }
}

/// The record of a row of AG News.
pub fn ag_news_record(row: &Vec<String>) -> (r: Result<Json, RowError>)
    ensures
        match r {
            Ok(j) => article(text::texts(row@)) == Ok::<JsonV, RowError>(j@),
            Err(e) => article(text::texts(row@)) == Err::<JsonV, RowError>(e),
        },
{
    if row.len() < 3 {
        return Err(RowError::Columns);
    }
    let class: u64 = match parse_nat(trim(row[0].as_str()).as_str(), usize::MAX as u64) {
        Some(c) => c,
        None => return Err(RowError::Class),
    };
    if class < 1 || class > 4 {
        return Err(RowError::NoSuchClass(class));
    }
    let mut state = clean_ag(row[1].as_str());
    state.append("\n");
    state.append(clean_ag(row[2].as_str()).as_str());
    let mut crit: Vec<(String, Json)> = Vec::new();
    let mut i: u64 = 0;
    proof {
        assert(json::members(crit@) =~= sections().take(0));
    }
    while i < 4
        invariant
            i <= 4,
            json::members(crit@) == sections().take(i as int),
        decreases 4 - i,
    {
        let (k, v) = section_of(i + 1);
        add_member(&mut crit, k, string(v));
        proof {
            assert(sections().take(i + 1) =~= sections().take(i as int).push(
                sections()[i as int],
            ));
        }
        i += 1;
    }
    let mut q: Vec<(String, Json)> = Vec::new();
    proof {
        assert(sections().take(4) =~= sections());
    }
    add_member(&mut q, "t", string("choice"));
    add_member(
        &mut q,
        "ins",
        string("Which section of a news site does this article belong in?"),
    );
    add_member(&mut q, "crit", Json::Object(crit));
    proof {
        assert(json::members(q@) =~= section_question()->Object_0);
    }
    Ok(build_record(state.as_str(), "topic", Json::Object(q), string(section_of(class).0)))
}

/// The records of the rows of AG News before the first row at fault, that row's number (the first
/// is one) and what is wrong with it.
pub open spec fn articles(rows: Seq<Seq<Seq<char>>>) -> (Seq<JsonV>, Option<(nat, RowError)>)
    decreases rows.len(),
{
    if rows.len() == 0 {
        (Seq::empty(), None)
    } else {
        let (s, fault) = articles(rows.drop_last());
        match fault {
            Some(_) => (s, fault),
            None => match article(rows.last()) {
                Ok(j) => (s.push(j), None),
                Err(e) => (s, Some((rows.len(), e))),
            },
        }
    }
}

proof fn lemma_articles_fail(rows: Seq<Seq<Seq<char>>>, n: int)
    requires
        0 <= n <= rows.len(),
        articles(rows.take(n)).1 is Some,
    ensures
        articles(rows) == articles(rows.take(n)),
    decreases rows.len() - n,
{
    if n < rows.len() {
        assert(rows.take(n + 1).drop_last() =~= rows.take(n));
        lemma_articles_fail(rows, n + 1);
    } else {
        assert(rows.take(n) =~= rows);
    }
}

/// The records of AG News (rows of a class, a title and a description) before the first row at
/// fault, that row's number (the first is one) and what is wrong with it.
pub fn convert_ag_news(file: &str) -> (r: (Vec<Json>, Option<(usize, RowError)>))
    ensures
        json::values(r.0@) == articles(csv_rows(file@)).0,
        match r.1 {
            Some((n, e)) => articles(csv_rows(file@)).1 == Some((n as nat, e)),
            None => articles(csv_rows(file@)).1 is None,
        },
{
    let rows = parse_csv(file);
    let ghost all = row_texts(rows@);
    let mut out: Vec<Json> = Vec::new();
    let mut i: usize = 0;
    proof {
        assert(all.take(0) =~= Seq::empty());
        assert(json::values(out@) =~= Seq::empty());
    }
    while i < rows.len()
        invariant
            i <= rows@.len(),
            all == row_texts(rows@),
            all == csv_rows(file@),
            articles(all.take(i as int)) == (json::values(out@), None::<(nat, RowError)>),
        decreases rows@.len() - i,
    {
        proof {
            assert(all.take(i + 1).drop_last() =~= all.take(i as int));
            assert(all.take(i + 1).last() == text::texts(rows@[i as int]@));
        }
        match ag_news_record(&rows[i]) {
            Ok(j) => add_value(&mut out, j),
            Err(e) => {
                proof {
                    lemma_articles_fail(all, i + 1);
                }
                return (out, Some((i + 1, e)));
            },
        }
        i += 1;
    }
    proof {
        assert(all.take(i as int) =~= all);
    }
    (out, None)
}

/// What is wrong with a row of AG News, in words.
pub open spec fn row_words(line: nat, e: RowError) -> Seq<char> {
    "line "@ + text::dec(line) + match e {
        RowError::Columns => ": expected 3 columns"@,
        RowError::Class => ": class"@,
        RowError::NoSuchClass(c) => ": class "@ + text::dec(c as nat),
    }
}

/// What is wrong with a row of AG News, in words.
pub fn row_message(line: usize, e: RowError) -> (r: String)
    ensures
        r@ == row_words(line as nat, e),
{
    let mut r = "line ".to_owned();
    r.append(decimal(line as u64).as_str());
    match e {
        RowError::Columns => {
            r.append(": expected 3 columns");
        },
        RowError::Class => {
            r.append(": class");
        },
        RowError::NoSuchClass(c) => {
            r.append(": class ");
            r.append(decimal(c).as_str());
            proof {
                assert(r@ =~= row_words(line as nat, e));
            }
        },
    }
    r
}

// ---------------------------------------------------------------------------------------------
// BoolQ

/// Which field of a BoolQ line is missing or of the wrong sort.
#[derive(Clone, Copy, PartialEq, Eq, Structural, Debug)]
pub enum BoolqError {
    Question,
    Passage,
    Answer,
}

/// A text member of a document.
pub open spec fn text_part(v: JsonV, key: Seq<char>) -> Option<Seq<char>> {
    match v {
        JsonV::Object(o) => match json::member(o, key) {
            Some(JsonV::String(s)) => Some(s),
            _ => None,
        },
        _ => None,
    }
}

/// An ASCII character in upper case.
pub open spec fn upper(c: char) -> char {
    if 'a' <= c && c <= 'z' {
        (c as int - 32) as char
    } else {
        c
    }
}

/// A question as it is asked: its first letter, where that is ASCII, in upper case, and a question
/// mark at its end.
pub open spec fn asked_as(q: Seq<char>) -> Seq<char> {
    let s = if q.len() > 0 && (q[0] as int) < 128 {
        q.update(0, upper(q[0]))
    } else {
        q
    };
    if s.len() > 0 && s.last() == '?' {
        s
    } else {
        s.push('?')
    }
}

/// The record of a line of BoolQ.
pub open spec fn boolq(v: JsonV) -> Result<JsonV, BoolqError> {
    match text_part(v, "question"@) {
        None => Err(BoolqError::Question),
        Some(q) => match text_part(v, "passage"@) {
            None => Err(BoolqError::Passage),
            Some(passage) => {
                let state = match text_part(v, "title"@) {
                    Some(t) => t + "\n"@ + passage,
                    None => passage,
                };
                match v {
                    JsonV::Object(o) => match json::member(o, "answer"@) {
                        Some(JsonV::Bool(b)) => Ok(
                            one_question(
                                state,
                                "answer"@,
                                JsonV::Object(
                                    seq![
                                        ("t"@, JsonV::String("noul"@)),
                                        ("ins"@, JsonV::String(asked_as(text::trimmed(q)))),
                                    ],
                                ),
                                JsonV::Bool(b),
                            ),
                        ),
                        _ => Err(BoolqError::Answer),
                    },
                    _ => Err(BoolqError::Answer),
                }
            },
        },
    }
}

fn get_text<'a>(v: &'a Json, key: &str) -> (r: Option<&'a String>)
    ensures
        match r {
            Some(s) => text_part(v@, key@) == Some(s@),
            None => text_part(v@, key@) is None,
        },
{
    match v {
        Json::Object(o) => match get(o, key) {
            Some(Json::String(s)) => Some(s),
            _ => None,
        },
        _ => None,
    }
}

fn upper_case(c: char) -> (r: char)
    ensures
        r == upper(c),
{
    if 'a' <= c && c <= 'z' {
        (c as u8 - 32) as char
    } else {
        c
    }
}

fn ask_as(q: &str) -> (r: String)
    ensures
        r@ == asked_as(q@),
{
    let v = chars_of(q);
    let mut r = String::new();
    let n: usize = v.len();
    let mut i: usize = 0;
    let ghost s = if q@.len() > 0 && (q@[0] as int) < 128 {
        q@.update(0, upper(q@[0]))
    } else {
        q@
    };
    proof {
        assert(r@ =~= s.take(0));
    }
    while i < n
        invariant
            v@ == q@,
            n == v@.len(),
            i <= n,
            s == (if q@.len() > 0 && (q@[0] as int) < 128 {
                q@.update(0, upper(q@[0]))
            } else {
                q@
            }),
            r@ == s.take(i as int),
        decreases n - i,
    {
        if i == 0 && (v[0] as u32) < 128 {
            r.push(upper_case(v[0]));
        } else {
            r.push(v[i]);
        }
        proof {
            assert(s.take(i + 1) =~= s.take(i as int).push(s[i as int]));
        }
        i += 1;
    }
    proof {
        assert(s.take(n as int) =~= s);
    }
    let ends = n > 0 && r.as_str().get_char(n - 1) == '?';
    if !ends {
        r.push('?');
    }
    r
}

/// The record of a line of BoolQ (`question`, `passage`, `answer`, optional `title`).
pub fn boolq_record(v: &Json) -> (r: Result<Json, BoolqError>)
    ensures
        match r {
            Ok(j) => boolq(v@) == Ok::<JsonV, BoolqError>(j@),
            Err(e) => boolq(v@) == Err::<JsonV, BoolqError>(e),
        },
{
    let q = match get_text(v, "question") {
        Some(q) => trim(q.as_str()),
        None => return Err(BoolqError::Question),
    };
    let passage = match get_text(v, "passage") {
        Some(p) => p,
        None => return Err(BoolqError::Passage),
    };
    let state = match get_text(v, "title") {
        Some(t) => {
            let mut s = t.clone();
            s.append("\n");
            s.append(passage.as_str());
            s
        },
        None => passage.clone(),
    };
    let answer = match v {
        Json::Object(o) => match get(o, "answer") {
            Some(Json::Bool(b)) => *b,
            _ => return Err(BoolqError::Answer),
        },
        _ => return Err(BoolqError::Answer),
    };
    let mut o: Vec<(String, Json)> = Vec::new();
    add_member(&mut o, "t", string("noul"));
    add_member(&mut o, "ins", string(ask_as(q.as_str()).as_str()));
    proof {
        assert(json::members(o@) =~= seq![
            ("t"@, JsonV::String("noul"@)),
            ("ins"@, JsonV::String(asked_as(q@))),
        ]);
    }
    Ok(build_record(state.as_str(), "answer", Json::Object(o), Json::Bool(answer)))
}

/// Why a line of BoolQ gives no record.
#[derive(Debug, PartialEq, Eq)]
pub enum BoolqLineError {
    /// The line is no JSON document.
    BadJson(String),
    Record(BoolqError),
}

/// Why a line of BoolQ gives no record.
pub enum BoolqLineErrorV {
    BadJson(Seq<char>),
    Record(BoolqError),
}

impl View for BoolqLineError {
    type V = BoolqLineErrorV;

    open spec fn view(&self) -> BoolqLineErrorV {
        match *self {
            BoolqLineError::BadJson(m) => BoolqLineErrorV::BadJson(m@),
            BoolqLineError::Record(e) => BoolqLineErrorV::Record(e),
        }
    }
}

impl BoolqLineErrorV {
    /// The error in words.
    pub open spec fn words(self) -> Seq<char> {
        match self {
            BoolqLineErrorV::BadJson(m) => m,
            BoolqLineErrorV::Record(BoolqError::Question) => "question"@,
            BoolqLineErrorV::Record(BoolqError::Passage) => "passage"@,
            BoolqLineErrorV::Record(BoolqError::Answer) => "answer"@,
        }
    }
}

impl BoolqLineError {
    /// The error in words.
    pub fn message(&self) -> (r: String)
        ensures
            r@ == self@.words(),
    {
        match self {
            BoolqLineError::BadJson(m) => m.clone(),
            BoolqLineError::Record(BoolqError::Question) => "question".to_owned(),
            BoolqLineError::Record(BoolqError::Passage) => "passage".to_owned(),
            BoolqLineError::Record(BoolqError::Answer) => "answer".to_owned(),
        }
    }
}

/// The records of lines of BoolQ before the first one at fault, and what is wrong with that.
/// Blank lines are passed over.
pub open spec fn boolq_lines(lines: Seq<Seq<char>>) -> (Seq<JsonV>, Option<BoolqLineErrorV>)
    decreases lines.len(),
{
    if lines.len() == 0 {
        (Seq::empty(), None)
    } else {
        let (s, fault) = boolq_lines(lines.drop_last());
        if fault is Some || text::trimmed(lines.last()).len() == 0 {
            (s, fault)
        } else {
            match json::json_of(vstd::utf8::encode_utf8(lines.last())) {
                Err(e) => (s, Some(BoolqLineErrorV::BadJson(e.1))),
                Ok(v) => match boolq(v) {
                    Ok(j) => (s.push(j), None),
                    Err(e) => (s, Some(BoolqLineErrorV::Record(e))),
                },
            }
        }
    }
}

proof fn lemma_boolq_fails(lines: Seq<Seq<char>>, n: int)
    requires
        0 <= n <= lines.len(),
        boolq_lines(lines.take(n)).1 is Some,
    ensures
        boolq_lines(lines) == boolq_lines(lines.take(n)),
    decreases lines.len() - n,
{
    if n < lines.len() {
        assert(lines.take(n + 1).drop_last() =~= lines.take(n));
        lemma_boolq_fails(lines, n + 1);
    } else {
        assert(lines.take(n) =~= lines);
    }
}

/// The records of a file of BoolQ before the first line at fault, and what is wrong with that.
/// Blank lines are passed over.
pub fn convert_boolq(file: &str) -> (r: (Vec<Json>, Option<BoolqLineError>))
    ensures
        json::values(r.0@) == boolq_lines(text::lines_of(file@)).0,
        match r.1 {
            Some(e) => boolq_lines(text::lines_of(file@)).1 == Some(e@),
            None => boolq_lines(text::lines_of(file@)).1 is None,
        },
{
    let lines = text::lines(file);
    let ghost all = text::texts(lines@);
    let mut out: Vec<Json> = Vec::new();
    let mut i: usize = 0;
    proof {
        assert(all.take(0) =~= Seq::empty());
        assert(json::values(out@) =~= Seq::empty());
    }
    while i < lines.len()
        invariant
            i <= lines@.len(),
            all == text::texts(lines@),
            all == text::lines_of(file@),
            boolq_lines(all.take(i as int)) == (json::values(out@), None::<BoolqLineErrorV>),
        decreases lines@.len() - i,
    {
        proof {
            assert(all.take(i + 1).drop_last() =~= all.take(i as int));
            assert(all.take(i + 1).last() == lines@[i as int]@);
        }
        if trim(lines[i].as_str()).as_str().unicode_len() > 0 {
            let v = match json::parse(lines[i].as_str().as_bytes()) {
                Ok(v) => v,
                Err(e) => {
                    proof {
                        lemma_boolq_fails(all, i + 1);
                    }
                    return (out, Some(BoolqLineError::BadJson(e.message)));
                },
            };
            match boolq_record(&v) {
                Ok(j) => add_value(&mut out, j),
                Err(e) => {
                    proof {
                        lemma_boolq_fails(all, i + 1);
                    }
                    return (out, Some(BoolqLineError::Record(e)));
                },
            }
        }
        i += 1;
    }
    proof {
        assert(all.take(i as int) =~= all);
    }
    (out, None)
}

// ---------------------------------------------------------------------------------------------
// Made-up records

/// A team, with what it handles.
pub open spec fn team(i: int) -> (Seq<char>, Seq<char>) {
    if i == 0 {
        ("billing"@, "charges, invoices and refunds"@)
    } else if i == 1 {
        ("shipping"@, "delivery, tracking and damaged parcels"@)
    } else if i == 2 {
        ("account"@, "logins, passwords and profile settings"@)
    } else if i == 3 {
        ("security"@, "fraud, phishing and suspicious activity"@)
    } else if i == 4 {
        ("product"@, "features, bugs and how-to questions"@)
    } else {
        ("feedback"@, "praise, complaints and suggestions"@)
    }
}

/// What a customer writes for each team.
pub open spec fn complaint(i: int) -> Seq<char> {
    if i == 0 {
        "I was charged twice on my last invoice and want a refund"@
    } else if i == 1 {
        "my parcel has not arrived and the tracking page is stuck"@
    } else if i == 2 {
        "I cannot log in and the password reset email never comes"@
    } else if i == 3 {
        "someone tried to phish me with a fake email from your company"@
    } else if i == 4 {
        "the export button crashes the app every time I press it"@
    } else {
        "your support team was wonderful, thank you so much"@
    }
}

/// Where a customer is.
pub open spec fn city_name(i: int) -> Seq<char> {
    if i == 0 {
        "Paris"@
    } else if i == 1 {
        "Lagos"@
    } else if i == 2 {
        "Osaka"@
    } else if i == 3 {
        "Lima"@
    } else {
        "Oslo"@
    }
}

/// How urgent a message is.
pub open spec fn level_name(i: int) -> Seq<char> {
    if i == 0 {
        "low"@
    } else if i == 1 {
        "medium"@
    } else if i == 2 {
        "high"@
    } else {
        "critical"@
    }
}

/// How a customer sounds at each level.
pub open spec fn tone(i: int) -> Seq<char> {
    if i == 0 {
        "calm"@
    } else if i == 1 {
        "a bit annoyed"@
    } else if i == 2 {
        "angry"@
    } else {
        "furious and threatening to leave"@
    }
}

fn team_of(i: usize) -> (r: (&'static str, &'static str))
    ensures
        (r.0@, r.1@) == team(i as int),
{
    match i {
        0 => ("billing", "charges, invoices and refunds"),
        1 => ("shipping", "delivery, tracking and damaged parcels"),
        2 => ("account", "logins, passwords and profile settings"),
        3 => ("security", "fraud, phishing and suspicious activity"),
        4 => ("product", "features, bugs and how-to questions"),
        _ => ("feedback", "praise, complaints and suggestions"),
    }
}

fn complaint_of(i: usize) -> (r: &'static str)
    ensures
        r@ == complaint(i as int),
{
    match i {
        0 => "I was charged twice on my last invoice and want a refund",
        1 => "my parcel has not arrived and the tracking page is stuck",
        2 => "I cannot log in and the password reset email never comes",
        3 => "someone tried to phish me with a fake email from your company",
        4 => "the export button crashes the app every time I press it",
        _ => "your support team was wonderful, thank you so much",
    }
}

fn city_of(i: usize) -> (r: &'static str)
    ensures
        r@ == city_name(i as int),
{
    match i {
        0 => "Paris",
        1 => "Lagos",
        2 => "Osaka",
        3 => "Lima",
        _ => "Oslo",
    }
}

fn level_of(i: usize) -> (r: &'static str)
    ensures
        r@ == level_name(i as int),
{
    match i {
        0 => "low",
        1 => "medium",
        2 => "high",
        _ => "critical",
    }
}

fn tone_of(i: usize) -> (r: &'static str)
    ensures
        r@ == tone(i as int),
{
    match i {
        0 => "calm",
        1 => "a bit annoyed",
        2 => "angry",
        _ => "furious and threatening to leave",
    }
}

/// The teams but one.
pub open spec fn other_teams(topic: nat) -> Seq<usize> {
    Seq::new(
        5,
        |i: int|
            if i < topic {
                i as usize
            } else {
                (i + 1) as usize
            },
    )
}

/// What is drawn for a record.
#[verifier::ext_equal]
pub struct Scene {
    pub topic: nat,
    pub city: nat,
    pub level: nat,
    /// The teams to choose from.
    pub teams: Seq<usize>,
    /// The city that is asked about.
    pub asked: nat,
    /// The state after drawing.
    pub state: u64,
}

/// What is drawn for a record: a team, a city and a level, three to six teams to choose from that
/// always have the right one among them, and a city to ask about, which is the right one at least
/// half the time.
pub open spec fn scene(s: u64) -> Scene {
    let topic = random::drawn_below(s, 6);
    let s1 = random::stepped(s);
    let city = random::drawn_below(s1, 5);
    let s2 = random::stepped(s1);
    let level = random::drawn_below(s2, 4);
    let s3 = random::stepped(s2);
    let (s4, pool) = random::shuffled(s3, other_teams(topic), 4);
    let k = 2 + random::drawn_below(s4, 4);
    let s5 = random::stepped(s4);
    let dealt = seq![topic as usize] + pool.take(k as int);
    let (s6, teams) = random::shuffled(s5, dealt, k as int);
    let right = random::drawn_unit(s6) < 0x10_0000_0000_0000;
    let s7 = random::stepped(s6);
    if right {
        Scene { topic, city, level, teams, asked: city, state: s7 }
    } else {
        Scene {
            topic,
            city,
            level,
            teams,
            asked: random::drawn_below(s7, 5),
            state: random::stepped(s7),
        }
    }
}

/// Several teams as criteria.
pub open spec fn team_criteria(teams: Seq<usize>) -> Seq<(Seq<char>, JsonV)> {
    Seq::new(
        teams.len(),
        |i: int| (team(teams[i] as int).0, JsonV::String(team(teams[i] as int).1)),
    )
}

/// The record of a scene: which team, whether the customer is in the city asked about, and how
/// urgent it is.
pub open spec fn scene_record(c: Scene) -> JsonV {
    let state = "Customer from "@ + city_name(c.city as int) + " writes: "@ + complaint(
        c.topic as int,
    ) + ". They sound "@ + tone(c.level as int) + "."@;
    JsonV::Object(
        seq![
            ("state"@, JsonV::String(state)),
            (
                "questions"@,
                JsonV::Object(
                    seq![
                        (
                            "team"@,
                            JsonV::Object(
                                seq![
                                    ("t"@, JsonV::String("choice"@)),
                                    (
                                        "ins"@,
                                        JsonV::String("Which team should handle this message?"@),
                                    ),
                                    ("crit"@, JsonV::Object(team_criteria(c.teams))),
                                ],
                            ),
                        ),
                        (
                            "city"@,
                            JsonV::Object(
                                seq![
                                    ("t"@, JsonV::String("noul"@)),
                                    (
                                        "ins"@,
                                        JsonV::String(
                                            "Is the customer based in "@ + city_name(
                                                c.asked as int,
                                            ) + "?"@,
                                        ),
                                    ),
                                ],
                            ),
                        ),
                        (
                            "urgency"@,
                            JsonV::Object(
                                seq![
                                    ("t"@, JsonV::String("score"@)),
                                    ("ins"@, JsonV::String("How urgent is this?"@)),
                                    (
                                        "crit"@,
                                        JsonV::Array(
                                            Seq::new(4, |i: int| JsonV::String(level_name(i))),
                                        ),
                                    ),
                                ],
                            ),
                        ),
                    ],
                ),
            ),
            (
                "targets"@,
                JsonV::Object(
                    seq![
                        ("team"@, JsonV::String(team(c.topic as int).0)),
                        ("city"@, JsonV::Bool(c.asked == c.city)),
                        ("urgency"@, JsonV::Number(NumV::Nat(c.level))),
                    ],
                ),
            ),
        ],
    )
}

fn other_teams_of(topic: usize) -> (r: Vec<usize>)
    requires
        topic < 6,
    ensures
        r@ == other_teams(topic as nat),
{
    let mut r: Vec<usize> = Vec::new();
    let mut i: usize = 0;
    while i < 5
        invariant
            i <= 5,
            r@ == other_teams(topic as nat).take(i as int),
        decreases 5 - i,
    {
        if i < topic {
            r.push(i);
        } else {
            r.push(i + 1);
        }
        proof {
            assert(other_teams(topic as nat).take(i + 1) =~= other_teams(topic as nat).take(
                i as int,
            ).push(other_teams(topic as nat)[i as int]));
        }
        i += 1;
    }
    proof {
        assert(other_teams(topic as nat).take(5) =~= other_teams(topic as nat));
    }
    r
}

fn choice_question(teams: &Vec<usize>) -> (r: Json)
    ensures
        r@ == JsonV::Object(
            seq![
                ("t"@, JsonV::String("choice"@)),
                ("ins"@, JsonV::String("Which team should handle this message?"@)),
                ("crit"@, JsonV::Object(team_criteria(teams@))),
            ],
        ),
{
    let ghost all = team_criteria(teams@);
    let mut crit: Vec<(String, Json)> = Vec::new();
    let mut i: usize = 0;
    proof {
        assert(json::members(crit@) =~= all.take(0));
    }
    while i < teams.len()
        invariant
            i <= teams@.len(),
            all == team_criteria(teams@),
            json::members(crit@) == all.take(i as int),
        decreases teams@.len() - i,
    {
        let (k, v) = team_of(teams[i]);
        add_member(&mut crit, k, string(v));
        proof {
            assert(all.take(i + 1) =~= all.take(i as int).push(all[i as int]));
        }
        i += 1;
    }
    proof {
        assert(all.take(i as int) =~= all);
    }
    let mut o: Vec<(String, Json)> = Vec::new();
    add_member(&mut o, "t", string("choice"));
    add_member(&mut o, "ins", string("Which team should handle this message?"));
    add_member(&mut o, "crit", Json::Object(crit));
    proof {
        assert(json::members(o@) =~= seq![
            ("t"@, JsonV::String("choice"@)),
            ("ins"@, JsonV::String("Which team should handle this message?"@)),
            ("crit"@, JsonV::Object(all)),
        ]);
    }
    Json::Object(o)
}

fn city_question(asked: usize) -> (r: Json)
    ensures
        r@ == JsonV::Object(
            seq![
                ("t"@, JsonV::String("noul"@)),
                (
                    "ins"@,
                    JsonV::String(
                        "Is the customer based in "@ + city_name(asked as int) + "?"@,
                    ),
                ),
            ],
        ),
{
    let mut ins = "Is the customer based in ".to_owned();
    ins.append(city_of(asked));
    ins.append("?");
    let mut o: Vec<(String, Json)> = Vec::new();
    add_member(&mut o, "t", string("noul"));
    add_member(&mut o, "ins", string(ins.as_str()));
    proof {
        assert(json::members(o@) =~= seq![
            ("t"@, JsonV::String("noul"@)),
            ("ins"@, JsonV::String(ins@)),
        ]);
    }
    Json::Object(o)
}

fn urgency_question() -> (r: Json)
    ensures
        r@ == JsonV::Object(
            seq![
                ("t"@, JsonV::String("score"@)),
                ("ins"@, JsonV::String("How urgent is this?"@)),
                ("crit"@, JsonV::Array(Seq::new(4, |i: int| JsonV::String(level_name(i))))),
            ],
        ),
{
    let ghost all = Seq::new(4, |i: int| JsonV::String(level_name(i)));
    let mut levels: Vec<Json> = Vec::new();
    let mut i: usize = 0;
    proof {
        assert(json::values(levels@) =~= all.take(0));
    }
    while i < 4
        invariant
            i <= 4,
            all == Seq::new(4, |i: int| JsonV::String(level_name(i))),
            json::values(levels@) == all.take(i as int),
        decreases 4 - i,
    {
        add_value(&mut levels, string(level_of(i)));
        proof {
            assert(all.take(i + 1) =~= all.take(i as int).push(all[i as int]));
        }
        i += 1;
    }
    proof {
        assert(all.take(4) =~= all);
    }
    let mut o: Vec<(String, Json)> = Vec::new();
    add_member(&mut o, "t", string("score"));
    add_member(&mut o, "ins", string("How urgent is this?"));
    add_member(&mut o, "crit", Json::Array(levels));
    proof {
        assert(json::members(o@) =~= seq![
            ("t"@, JsonV::String("score"@)),
            ("ins"@, JsonV::String("How urgent is this?"@)),
            ("crit"@, JsonV::Array(all)),
        ]);
    }
    Json::Object(o)
}

/// A made-up record with several questions that can only be answered by reading the state and the
/// options.
pub fn synthetic_record(rng: &mut Rng) -> (r: Json)
    ensures
        r@ == scene_record(scene(old(rng).0)),
        final(rng).0 == scene(old(rng).0).state,
{
    let ghost seed = rng.0;
    let topic: usize = rng.below(6);
    let city: usize = rng.below(5);
    let level: usize = rng.below(4);
    let mut pool = other_teams_of(topic);
    proof {
        random::lemma_shuffling_keeps_all(rng.0, pool@, 4);
    }
    rng.shuffle(&mut pool);
    let more: usize = rng.below(4);
    let k: usize = 2 + more;
    pool.truncate(k);
    let mut teams: Vec<usize> = Vec::new();
    teams.push(topic);
    teams.append(&mut pool);
    proof {
        let s3 = random::stepped(random::stepped(random::stepped(seed)));
        assert(teams@ =~= seq![topic] + random::shuffled(s3, other_teams(topic as nat), 4).1.take(
            k as int,
        ));
    }
    rng.shuffle(&mut teams);
    let right = rng.unit() < 0x10_0000_0000_0000;
    let asked: usize = if right {
        city
    } else {
        rng.below(5)
    };
    let ghost c = scene(seed);
    proof {
        assert(c.topic == topic && c.city == city && c.level == level && c.teams == teams@
            && c.asked == asked);
    }
    let mut state = "Customer from ".to_owned();
    state.append(city_of(city));
    state.append(" writes: ");
    state.append(complaint_of(topic));
    state.append(". They sound ");
    state.append(tone_of(level));
    state.append(".");
    let mut qs: Vec<(String, Json)> = Vec::new();
    add_member(&mut qs, "team", choice_question(&teams));
    add_member(&mut qs, "city", city_question(asked));
    add_member(&mut qs, "urgency", urgency_question());
    let mut ts: Vec<(String, Json)> = Vec::new();
    add_member(&mut ts, "team", string(team_of(topic).0));
    add_member(&mut ts, "city", Json::Bool(asked == city));
    add_member(&mut ts, "urgency", natural(level as u64));
    let ghost want = scene_record(c)->Object_0;
    proof {
        assert(json::members(qs@) =~= want[1].1->Object_0);
        assert(json::members(ts@) =~= want[2].1->Object_0);
    }
    let mut o: Vec<(String, Json)> = Vec::new();
    add_member(&mut o, "state", string(state.as_str()));
    add_member(&mut o, "questions", Json::Object(qs));
    add_member(&mut o, "targets", Json::Object(ts));
    proof {
        assert(json::members(o@) =~= want);
    }
    Json::Object(o)
}

/// So many made-up records in a row, and the generator's state after them.
pub open spec fn scenes(s: u64, n: nat) -> (Seq<JsonV>, u64)
    decreases n,
{
    if n == 0 {
        (Seq::empty(), s)
    } else {
        let (records, t) = scenes(s, (n - 1) as nat);
        (records.push(scene_record(scene(t))), scene(t).state)
    }
}

/// So many made-up records, the same for the same seed.
pub fn synthetic(n: usize, seed: u64) -> (r: Vec<Json>)
    ensures
        r@.len() == n,
        json::values(r@) == scenes(seed, n as nat).0,
{
    let mut rng = Rng(seed);
    let mut out: Vec<Json> = Vec::new();
    let mut i: usize = 0;
    proof {
        assert(json::values(out@) =~= Seq::empty());
    }
    while i < n
        invariant
            i <= n,
            json::values(out@).len() == i,
            scenes(seed, i as nat) == (json::values(out@), rng.0),
        decreases n - i,
    {
        let rec = synthetic_record(&mut rng);
        add_value(&mut out, rec);
        i += 1;
    }
    assert(json::values(out@).len() == out@.len());
    out
}

/// A made-up record can be answered: the right team is among those to choose from, of which there
/// are three to six.
pub proof fn lemma_right_team_is_an_option(s: u64)
    ensures
        scene(s).teams.contains(scene(s).topic as usize),
        3 <= scene(s).teams.len() <= 6,
{
    let topic = random::drawn_below(s, 6);
    let s3 = random::stepped(random::stepped(random::stepped(s)));
    random::lemma_shuffling_keeps_all(s3, other_teams(topic), 4);
    let (s4, pool) = random::shuffled(s3, other_teams(topic), 4);
    let k = 2 + random::drawn_below(s4, 4);
    let dealt = seq![topic as usize] + pool.take(k as int);
    random::lemma_shuffling_keeps_all(random::stepped(s4), dealt, k as int);
    let teams = random::shuffled(random::stepped(s4), dealt, k as int).1;
    assert(dealt[0] == topic as usize);
    dealt.to_multiset_ensures();
    teams.to_multiset_ensures();
    assert(dealt.contains(topic as usize));
    assert(dealt.to_multiset().count(topic as usize) > 0);
    assert(teams.to_multiset().count(topic as usize) > 0);
    assert(teams.contains(topic as usize));
}

/// The first records stay the same however many more are made: so many are the start of one more,
/// and of any more.
pub proof fn lemma_more_records_begin_alike(s: u64, m: nat, n: nat)
    requires
        m <= n,
    ensures
        scenes(s, n).0.len() == n,
        scenes(s, n).0.take(m as int) == scenes(s, m).0,
    decreases n,
{
    if m < n {
        let l = (n - 1) as nat;
        lemma_more_records_begin_alike(s, m, l);
        assert(scenes(s, n).0.take(m as int) =~= scenes(s, l).0.take(m as int));
    } else if n > 0 {
        lemma_more_records_begin_alike(s, (m - 1) as nat, (n - 1) as nat);
        assert(scenes(s, n).0.take(m as int) =~= scenes(s, m).0);
    } else {
        assert(scenes(s, n).0.take(m as int) =~= scenes(s, m).0);
    }
}

/// The members of an object with two or three, by their names.
proof fn lemma_members_by_name(o: Seq<(Seq<char>, JsonV)>)
    requires
        2 <= o.len() <= 3,
        o[0].0 != o[1].0,
        o.len() == 3 ==> o[0].0 != o[2].0 && o[1].0 != o[2].0,
    ensures
        json::member(o, o[0].0) == Some(o[0].1),
        json::member(o, o[1].0) == Some(o[1].1),
        o.len() == 3 ==> json::member(o, o[2].0) == Some(o[2].1),
{
    json::lemma_key_at_is(o, o[0].0, 0);
    json::lemma_key_at_is(o, o[1].0, 1);
    if o.len() == 3 {
        json::lemma_key_at_is(o, o[2].0, 2);
    }
}

/// No member has another name.
proof fn lemma_no_member(o: Seq<(Seq<char>, JsonV)>, key: Seq<char>)
    requires
        forall|i: int| 0 <= i < o.len() ==> (#[trigger] o[i]).0 != key,
    ensures
        json::member(o, key) is None,
{
    json::lemma_key_at_is(o, key, o.len() as int);
}

proof fn lemma_key_place_of(keys: Seq<Seq<char>>, key: Seq<char>)
    requires
        keys.contains(key),
    ensures
        data::key_place(keys, key) < keys.len(),
        keys[data::key_place(keys, key) as int] == key,
    decreases keys.len(),
{
    if keys[0] != key {
        let rest = keys.skip(1);
        let i = choose|i: int| 0 <= i < keys.len() && keys[i] == key;
        assert(rest[i - 1] == key);
        lemma_key_place_of(rest, key);
    }
}

/// A choice of a team, as it is asked.
proof fn lemma_team_question(v: JsonV, c: Scene)
    requires
        v == scene_record(c)->Object_0[1].1->Object_0[0].1,
        c.teams.len() > 0,
    ensures
        sequence::question_of(v) == Ok::<QuestionV, QuestionErrorV>(
            QuestionV {
                t: QType::Choice,
                ins: "Which team should handle this message?"@,
                crit: CriteriaV::Choice(team_criteria(c.teams)),
                labels: None,
            },
        ),
{
    let o = v->Object_0;
    reveal_strlit("t");
    reveal_strlit("ins");
    reveal_strlit("crit");
    reveal_strlit("labels");
    assert("t"@.len() == 1 && "ins"@.len() == 3 && "crit"@.len() == 4 && "labels"@.len() == 6);
    lemma_members_by_name(o);
    lemma_no_member(o, "labels"@);
}

proof fn lemma_city_question(v: JsonV, c: Scene)
    requires
        v == scene_record(c)->Object_0[1].1->Object_0[1].1,
    ensures
        sequence::question_of(v) == Ok::<QuestionV, QuestionErrorV>(
            QuestionV {
                t: QType::Noul,
                ins: "Is the customer based in "@ + city_name(c.asked as int) + "?"@,
                crit: CriteriaV::Noul(None, None),
                labels: None,
            },
        ),
{
    let o = v->Object_0;
    reveal_strlit("t");
    reveal_strlit("ins");
    reveal_strlit("crit");
    reveal_strlit("criteria");
    reveal_strlit("labels");
    reveal_strlit("noul");
    reveal_strlit("choice");
    reveal_strlit("score");
    assert("t"@.len() == 1 && "ins"@.len() == 3 && "crit"@.len() == 4 && "criteria"@.len() == 8
        && "labels"@.len() == 6);
    assert("noul"@.len() == 4 && "choice"@.len() == 6 && "score"@.len() == 5);
    lemma_members_by_name(o);
    lemma_no_member(o, "labels"@);
    lemma_no_member(o, "crit"@);
    lemma_no_member(o, "criteria"@);
}

proof fn lemma_urgency_question(v: JsonV, c: Scene)
    requires
        v == scene_record(c)->Object_0[1].1->Object_0[2].1,
    ensures
        sequence::question_of(v) == Ok::<QuestionV, QuestionErrorV>(
            QuestionV {
                t: QType::Score,
                ins: "How urgent is this?"@,
                crit: CriteriaV::Score(Seq::new(4, |i: int| JsonV::String(level_name(i)))),
                labels: None,
            },
        ),
{
    let o = v->Object_0;
    reveal_strlit("t");
    reveal_strlit("ins");
    reveal_strlit("crit");
    reveal_strlit("labels");
    reveal_strlit("choice");
    reveal_strlit("score");
    assert("t"@.len() == 1 && "ins"@.len() == 3 && "crit"@.len() == 4 && "labels"@.len() == 6);
    assert("choice"@.len() == 6 && "score"@.len() == 5);
    lemma_members_by_name(o);
    lemma_no_member(o, "labels"@);
}

/// A made-up record reads back as three examples about its state: which team, of three to six with
/// the right one among them; whether the customer is in the city asked about, which holds exactly
/// when it is the city of the state; and how urgent it is, of four levels.
pub proof fn lemma_records_read_back(s: u64)
    ensures
        ({
            let c = scene(s);
            let state = JsonV::String(
                "Customer from "@ + city_name(c.city as int) + " writes: "@ + complaint(
                    c.topic as int,
                ) + ". They sound "@ + tone(c.level as int) + "."@,
            );
            &&& data::record_of(scene_record(c)) matches Ok(ex)
            &&& ex.len() == 3
            &&& forall|i: int| 0 <= i < 3 ==> (#[trigger] ex[i]).state == state
            &&& ex[0].question.t == QType::Choice
            &&& 3 <= ex[0].question.keys().len() <= 6
            &&& ex[0].target matches TargetV::OneHot(j)
            &&& j < ex[0].question.keys().len()
            &&& ex[0].question.keys()[j as int] == team(c.topic as int).0
            &&& ex[1].question.t == QType::Noul
            &&& ex[1].question.ins == "Is the customer based in "@ + city_name(c.asked as int)
                + "?"@
            &&& ex[1].target == TargetV::OneHot(
                if c.asked == c.city {
                    1
                } else {
                    0
                },
            )
            &&& c.asked == c.city <==> city_name(c.asked as int) == city_name(c.city as int)
            &&& ex[2].question.t == QType::Score
            &&& ex[2].question.keys().len() == 4
            &&& ex[2].target == TargetV::OneHot(c.level)
        }),
{
    let c = scene(s);
    let rec = scene_record(c);
    let o = rec->Object_0;
    lemma_right_team_is_an_option(s);
    reveal_strlit("Paris");
    reveal_strlit("Lagos");
    reveal_strlit("Osaka");
    reveal_strlit("Lima");
    reveal_strlit("Oslo");
    assert("Paris"@[0] == 'P' && "Lagos"@[1] == 'a' && "Osaka"@[1] == 's' && "Lima"@[1] == 'i');
    assert("Oslo"@.len() == 4 && "Osaka"@.len() == 5);
    reveal_strlit("state");
    reveal_strlit("questions");
    reveal_strlit("targets");
    reveal_strlit("team");
    reveal_strlit("city");
    reveal_strlit("urgency");
    assert("state"@.len() == 5 && "questions"@.len() == 9 && "targets"@.len() == 7);
    assert("team"@[0] == 't' && "city"@[0] == 'c' && "urgency"@[0] == 'u');
    lemma_members_by_name(o);
    let qs = o[1].1->Object_0;
    let ts = o[2].1->Object_0;
    lemma_members_by_name(ts);
    lemma_team_question(qs[0].1, c);
    lemma_city_question(qs[1].1, c);
    lemma_urgency_question(qs[2].1, c);
    let q0 = sequence::question_of(qs[0].1)->Ok_0;
    let name = team(c.topic as int).0;
    let at = choose|i: int| 0 <= i < c.teams.len() && c.teams[i] == c.topic as usize;
    assert(q0.keys()[at] == name);
    assert(q0.keys().contains(name));
    lemma_key_place_of(q0.keys(), name);
    let state = o[0].1;
    let none = qs.take(0);
    let one = qs.take(1);
    let two = qs.take(2);
    assert(one.drop_last() =~= none);
    assert(two.drop_last() =~= one);
    assert(qs.drop_last() =~= two);
    assert(data::labelled_in(state, none, ts, false) == Ok::<
        Seq<data::LabelledV>,
        data::RecordErrorV,
    >(Seq::empty()));
    assert(data::labelled_in(state, one, ts, false) is Ok);
    assert(data::labelled_in(state, two, ts, false) is Ok);
    assert(data::labelled_in(state, qs, ts, false) is Ok);
    assert(data::labels_of(rec) == Some((ts, false)));
}

/// A record with one question reads back as one example: its state, its question, and its target.
proof fn lemma_one_question_reads_back(
    state: Seq<char>,
    id: Seq<char>,
    question: JsonV,
    target: JsonV,
    q: QuestionV,
    t: TargetV,
)
    requires
        sequence::question_of(question) == Ok::<QuestionV, QuestionErrorV>(q),
        data::target_of(q, target) == Ok::<TargetV, data::TargetErrorV>(t),
    ensures
        data::record_of(one_question(state, id, question, target)) == Ok::<
            Seq<data::LabelledV>,
            data::RecordErrorV,
        >(seq![data::LabelledV { state: JsonV::String(state), question: q, target: t }]),
{
    let rec = one_question(state, id, question, target);
    let o = rec->Object_0;
    reveal_strlit("state");
    reveal_strlit("questions");
    reveal_strlit("targets");
    assert("state"@.len() == 5 && "questions"@.len() == 9 && "targets"@.len() == 7);
    lemma_members_by_name(o);
    let qs = seq![(id, question)];
    let ts = seq![(id, target)];
    json::lemma_key_at_is(ts, id, 0);
    assert(qs.drop_last() =~= Seq::empty());
    assert(data::labelled_in(JsonV::String(state), qs.drop_last(), ts, false) == Ok::<
        Seq<data::LabelledV>,
        data::RecordErrorV,
    >(Seq::empty()));
    let one = data::LabelledV { state: JsonV::String(state), question: q, target: t };
    assert(Seq::<data::LabelledV>::empty().push(one) =~= seq![one]);
    assert(data::labels_of(rec) == Some((ts, false)));
}

/// A line of BoolQ becomes one `noul` question about its passage, under its title if it has one,
/// whose target is `true` when the line's answer is true and `false` when it is false.
pub proof fn lemma_boolq_lines_keep_their_answer(
    v: JsonV,
    o: Seq<(Seq<char>, JsonV)>,
    question: Seq<char>,
    passage: Seq<char>,
    answer: bool,
)
    requires
        v == JsonV::Object(o),
        json::member(o, "question"@) == Some(JsonV::String(question)),
        json::member(o, "passage"@) == Some(JsonV::String(passage)),
        json::member(o, "answer"@) == Some(JsonV::Bool(answer)),
    ensures
        ({
            &&& boolq(v) matches Ok(rec)
            &&& data::record_of(rec) matches Ok(ex)
            &&& ex.len() == 1
            &&& ex[0].question.t == QType::Noul
            &&& ex[0].question.crit == CriteriaV::Noul(None, None)
            &&& ex[0].question.labels is None
            &&& ex[0].target matches TargetV::OneHot(i)
            &&& i < ex[0].question.keys().len()
            &&& answer ==> ex[0].question.keys()[i as int] == "true"@
            &&& !answer ==> ex[0].question.keys()[i as int] == "false"@
            &&& json::member(o, "title"@) is None ==> ex[0].state == JsonV::String(passage)
            &&& json::member(o, "title"@) matches Some(JsonV::String(title)) ==> ex[0].state
                == JsonV::String(title + "\n"@ + passage)
            &&& ex[0].question.ins.len() > 0 && ex[0].question.ins.last() == '?'
        }),
{
    let rec = boolq(v)->Ok_0;
    let ins = asked_as(text::trimmed(question));
    let doc = JsonV::Object(
        seq![("t"@, JsonV::String("noul"@)), ("ins"@, JsonV::String(ins))],
    );
    let m = doc->Object_0;
    reveal_strlit("t");
    reveal_strlit("ins");
    reveal_strlit("crit");
    reveal_strlit("criteria");
    reveal_strlit("labels");
    reveal_strlit("noul");
    reveal_strlit("choice");
    reveal_strlit("score");
    reveal_strlit("true");
    reveal_strlit("false");
    assert("t"@.len() == 1 && "ins"@.len() == 3 && "crit"@.len() == 4 && "criteria"@.len() == 8
        && "labels"@.len() == 6);
    assert("noul"@.len() == 4 && "choice"@.len() == 6 && "score"@.len() == 5);
    lemma_members_by_name(m);
    lemma_no_member(m, "labels"@);
    lemma_no_member(m, "crit"@);
    lemma_no_member(m, "criteria"@);
    let q = QuestionV { t: QType::Noul, ins, crit: CriteriaV::Noul(None, None), labels: None };
    assert(sequence::question_of(doc) == Ok::<QuestionV, QuestionErrorV>(q));
    let t = TargetV::OneHot(
        if answer {
            1
        } else {
            0
        },
    );
    let state = match text_part(v, "title"@) {
        Some(t) => t + "\n"@ + passage,
        None => passage,
    };
    assert(q.keys()[0] == "false"@ && q.keys()[1] == "true"@);
    lemma_one_question_reads_back(state, "answer"@, doc, JsonV::Bool(answer), q, t);
}

/// A line of BoolQ without a text for its question or its passage, or without a truth value for its
/// answer, has no record.
pub proof fn lemma_boolq_lines_need_their_parts(o: Seq<(Seq<char>, JsonV)>)
    ensures
        boolq(JsonV::Object(o)) is Ok <==> {
            &&& json::member(o, "question"@) is Some
            &&& json::member(o, "question"@)->0 is String
            &&& json::member(o, "passage"@) is Some
            &&& json::member(o, "passage"@)->0 is String
            &&& json::member(o, "answer"@) is Some
            &&& json::member(o, "answer"@)->0 is Bool
        },
{
}

/// What is asked of a BoolQ line is its question: the same but for its first letter, which is no
/// longer a small one, and a question mark at its end, where it had none.
pub proof fn lemma_questions_are_asked_as_they_are(q: Seq<char>)
    ensures
        ({
            let a = asked_as(q);
            let n = q.len() as int;
            &&& a.len() > 0 && a.last() == '?'
            &&& a.len() == n || (a.len() == n + 1 && (n == 0 || q.last() != '?'))
            &&& forall|i: int| 1 <= i < n ==> a[i] == #[trigger] q[i]
            &&& n > 0 && !('a' <= q[0] <= 'z') ==> a[0] == q[0]
            &&& n > 0 && 'a' <= q[0] <= 'z' ==> a[0] as int == q[0] as int - 32 && 'A' <= a[0] <= 'Z'
        }),
{
}

/// A row of AG News becomes one choice among the four sections about its title and description:
/// the target is the section of its class, and the sections stand in the order of the classes.
pub proof fn lemma_articles_keep_their_class(row: Seq<Seq<char>>, class: nat)
    requires
        row.len() >= 3,
        text::read_nat(text::trimmed(row[0]), usize::MAX as nat) == Some(class),
        1 <= class <= 4,
    ensures
        ({
            &&& article(row) matches Ok(rec)
            &&& data::record_of(rec) matches Ok(ex)
            &&& ex.len() == 1
            &&& ex[0].question.t == QType::Choice
            &&& ex[0].question.keys() == seq!["world"@, "sports"@, "business"@, "science_tech"@]
            &&& ex[0].target == TargetV::OneHot((class - 1) as nat)
            &&& ex[0].state == JsonV::String(cleaned(row[1]) + "\n"@ + cleaned(row[2]))
        }),
{
    let doc = section_question();
    let m = doc->Object_0;
    reveal_strlit("t");
    reveal_strlit("ins");
    reveal_strlit("crit");
    reveal_strlit("labels");
    reveal_strlit("world");
    reveal_strlit("sports");
    reveal_strlit("business");
    reveal_strlit("science_tech");
    assert("t"@.len() == 1 && "ins"@.len() == 3 && "crit"@.len() == 4 && "labels"@.len() == 6);
    assert("world"@.len() == 5 && "sports"@.len() == 6 && "business"@.len() == 8
        && "science_tech"@.len() == 12);
    lemma_members_by_name(m);
    lemma_no_member(m, "labels"@);
    let q = QuestionV {
        t: QType::Choice,
        ins: "Which section of a news site does this article belong in?"@,
        crit: CriteriaV::Choice(sections()),
        labels: None,
    };
    assert(sequence::question_of(doc) == Ok::<QuestionV, QuestionErrorV>(q));
    let keys = q.keys();
    assert(keys =~= seq!["world"@, "sports"@, "business"@, "science_tech"@]);
    let name = section(class as int).0;
    data::lemma_key_place(keys, name, class - 1);
    lemma_one_question_reads_back(
        cleaned(row[1]) + "\n"@ + cleaned(row[2]),
        "topic"@,
        doc,
        JsonV::String(name),
        q,
        TargetV::OneHot((class - 1) as nat),
    );
}

/// A row of AG News with fewer than three columns, or whose class is no number from one to four,
/// has no record.
pub proof fn lemma_articles_need_their_parts(row: Seq<Seq<char>>)
    ensures
        article(row) is Ok <==> {
            &&& row.len() >= 3
            &&& text::read_nat(text::trimmed(row[0]), usize::MAX as nat) matches Some(class)
            &&& 1 <= class <= 4
        },
{
}

/// A made-up record is about what it says: the team that is right is the one whose kind of trouble
/// the state tells of, and the urgency is the level whose tone the state has.
pub proof fn lemma_made_up_targets_are_those_of_the_state(topic: int, level: int)
    requires
        0 <= topic < 6,
        0 <= level < 4,
    ensures
        team(topic).0 == "billing"@ <==> complaint(topic)
            == "I was charged twice on my last invoice and want a refund"@,
        team(topic).0 == "shipping"@ <==> complaint(topic)
            == "my parcel has not arrived and the tracking page is stuck"@,
        team(topic).0 == "account"@ <==> complaint(topic)
            == "I cannot log in and the password reset email never comes"@,
        team(topic).0 == "security"@ <==> complaint(topic)
            == "someone tried to phish me with a fake email from your company"@,
        team(topic).0 == "product"@ <==> complaint(topic)
            == "the export button crashes the app every time I press it"@,
        team(topic).0 == "feedback"@ <==> complaint(topic)
            == "your support team was wonderful, thank you so much"@,
        level_name(level) == "low"@ <==> tone(level) == "calm"@,
        level_name(level) == "medium"@ <==> tone(level) == "a bit annoyed"@,
        level_name(level) == "high"@ <==> tone(level) == "angry"@,
        level_name(level) == "critical"@ <==> tone(level) == "furious and threatening to leave"@,
{
    reveal_strlit("billing");
    reveal_strlit("shipping");
    reveal_strlit("account");
    reveal_strlit("security");
    reveal_strlit("product");
    reveal_strlit("feedback");
    assert("billing"@[0] == 'b' && "shipping"@[1] == 'h' && "account"@[0] == 'a' && "security"@[1]
        == 'e' && "product"@[0] == 'p' && "feedback"@[0] == 'f');
    reveal_strlit("I was charged twice on my last invoice and want a refund");
    reveal_strlit("my parcel has not arrived and the tracking page is stuck");
    reveal_strlit("I cannot log in and the password reset email never comes");
    reveal_strlit("someone tried to phish me with a fake email from your company");
    reveal_strlit("the export button crashes the app every time I press it");
    reveal_strlit("your support team was wonderful, thank you so much");
    assert("I was charged twice on my last invoice and want a refund"@[2] == 'w');
    assert("I cannot log in and the password reset email never comes"@[2] == 'c');
    assert("my parcel has not arrived and the tracking page is stuck"@[0] == 'm');
    assert("someone tried to phish me with a fake email from your company"@[0] == 's');
    assert("the export button crashes the app every time I press it"@[0] == 't');
    assert("your support team was wonderful, thank you so much"@[0] == 'y');
    reveal_strlit("low");
    reveal_strlit("medium");
    reveal_strlit("high");
    reveal_strlit("critical");
    assert("low"@.len() == 3 && "medium"@.len() == 6 && "high"@.len() == 4 && "critical"@.len()
        == 8);
    reveal_strlit("calm");
    reveal_strlit("a bit annoyed");
    reveal_strlit("angry");
    reveal_strlit("furious and threatening to leave");
    assert("calm"@.len() == 4 && "a bit annoyed"@.len() == 13 && "angry"@.len() == 5
        && "furious and threatening to leave"@.len() == 32);
}

/// Rows become records one for one, in order, up to the first at fault, which is named by its
/// number, counted from one.
pub proof fn lemma_rows_become_records_in_order(rows: Seq<Seq<Seq<char>>>, i: int)
    ensures
        ({
            let (s, fault) = articles(rows);
            &&& 0 <= i < s.len() ==> i < rows.len() && article(rows[i]) == Ok::<JsonV, RowError>(
                s[i],
            )
            &&& fault is None ==> s.len() == rows.len()
            &&& fault matches Some((n, e)) ==> 1 <= n <= rows.len() && s.len() == n - 1 && article(
                rows[n - 1],
            ) == Err::<JsonV, RowError>(e)
        }),
    decreases rows.len(),
{
    if rows.len() > 0 {
        let less = rows.drop_last();
        lemma_rows_become_records_in_order(less, i);
        let (s, fault) = articles(less);
        if 0 <= i < s.len() {
            assert(less[i] == rows[i]);
        }
        if let Some((n, e)) = fault {
            assert(less[n - 1] == rows[n - 1]);
        }
    }
}

/// The other teams are all but the right one, each once.
pub proof fn lemma_other_teams_are_all_but_the_right_one(topic: nat, i: int, j: int)
    requires
        topic < 6,
        0 <= i < 5,
        0 <= j < 6,
    ensures
        other_teams(topic).len() == 5,
        other_teams(topic)[i] < 6,
        other_teams(topic)[i] != topic,
        j != topic ==> other_teams(topic).contains(j as usize),
        forall|k: int| 0 <= k < i ==> other_teams(topic)[k] < other_teams(topic)[i],
{
    let o = other_teams(topic);
    if j < topic {
        assert(o[j] == j);
    } else if j > topic {
        assert(o[j - 1] == j);
    }
}

/// Each team is offered under its own name and with its own description.
pub proof fn lemma_teams_are_offered_by_name(teams: Seq<usize>, i: int)
    requires
        0 <= i < teams.len(),
    ensures
        team_criteria(teams).len() == teams.len(),
        team_criteria(teams)[i].0 == team(teams[i] as int).0,
        team_criteria(teams)[i].1 == JsonV::String(team(teams[i] as int).1),
{
}

/// A text without backslashes and signs of escapes stays as it is.
pub proof fn lemma_plain_texts_are_not_escaped(s: Seq<char>)
    ensures
        !s.contains('\\') && !s.contains('#') ==> unescaped(s) == s,
    decreases s.len(),
{
    if s.len() > 0 {
        let rest = s.skip(1);
        lemma_plain_texts_are_not_escaped(rest);
        if !s.contains('\\') && !s.contains('#') {
            assert(s[0] != '\\' && s[0] != '#');
            if rest.contains('\\') {
                let k = choose|k: int| 0 <= k < rest.len() && rest[k] == '\\';
                assert(s[k + 1] == '\\');
            }
            if rest.contains('#') {
                let k = choose|k: int| 0 <= k < rest.len() && rest[k] == '#';
                assert(s[k + 1] == '#');
            }
            assert(unescaped(s) =~= s);
        }
    } else {
        assert(unescaped(s) =~= s);
    }
}

} // verus!
