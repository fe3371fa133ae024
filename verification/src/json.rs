//! JSON documents: their values, how they are read from bytes and how they are written.

use vstd::prelude::*;
use vstd::string::*;

use crate::text::{decimal, in_base, pad_zeros, same};

verus! {

/// A JSON number: a whole number in the machine's range, or the text of any other.
#[derive(Debug, PartialEq, Eq)]
pub enum Num {
    /// A whole number that is not negative.
    Nat(u64),
    /// A negative whole number.
    Neg(i64),
    /// A number with a fraction or an exponent, as its shortest text.
    Float(String),
}

/// The value of a number.
#[verifier::ext_equal]
pub enum NumV {
    Nat(nat),
    Neg(int),
    Float(Seq<char>),
}

/// A JSON value. An object keeps its members in the order they came in.
#[derive(Debug, PartialEq, Eq)]
pub enum Json {
    Null,
    Bool(bool),
    Number(Num),
    String(String),
    Array(Vec<Json>),
    Object(Vec<(String, Json)>),
}

/// The value of a JSON document.
#[verifier::ext_equal]
pub enum JsonV {
    Null,
    Bool(bool),
    Number(NumV),
    String(Seq<char>),
    Array(Seq<JsonV>),
    Object(Seq<(Seq<char>, JsonV)>),
}

impl View for Num {
    type V = NumV;

    open spec fn view(&self) -> NumV {
        match self {
            Num::Nat(n) => NumV::Nat(*n as nat),
            Num::Neg(n) => NumV::Neg(*n as int),
            Num::Float(t) => NumV::Float(t@),
        }
    }
}

impl Json {
    /// The value a document holds.
    pub open spec fn tree(self) -> JsonV
        decreases self,
    {
        match self {
            Json::Null => JsonV::Null,
            Json::Bool(b) => JsonV::Bool(b),
            Json::Number(n) => JsonV::Number(n@),
            Json::String(s) => JsonV::String(s@),
            Json::Array(a) => JsonV::Array(
                Seq::new(
                    a@.len(),
                    |i: int|
                        if 0 <= i < a@.len() {
                            a@[i].tree()
                        } else {
                            JsonV::Null
                        },
                ),
            ),
            Json::Object(o) => JsonV::Object(
                Seq::new(
                    o@.len(),
                    |i: int|
                        if 0 <= i < o@.len() {
                            (o@[i].0@, o@[i].1.tree())
                        } else {
                            (Seq::empty(), JsonV::Null)
                        },
                ),
            ),
        }
    }
}

impl View for Json {
    type V = JsonV;

    open spec fn view(&self) -> JsonV {
        self.tree()
    }
}

/// The values of a list.
pub open spec fn values(a: Seq<Json>) -> Seq<JsonV> {
    Seq::new(a.len(), |i: int| a[i]@)
}

/// The members of an object.
pub open spec fn members(o: Seq<(String, Json)>) -> Seq<(Seq<char>, JsonV)> {
    Seq::new(o.len(), |i: int| (o[i].0@, o[i].1@))
}

/// What a list or an object holds.
pub broadcast proof fn lemma_tree(j: Json)
    ensures
        #![trigger j.view()]
        j matches Json::Array(a) ==> j@ == JsonV::Array(values(a@)),
        j matches Json::Object(o) ==> j@ == JsonV::Object(members(o@)),
{
    match j {
        Json::Array(a) => {
            assert(j@->Array_0 =~= values(a@));
        },
        Json::Object(o) => {
            assert(j@->Object_0 =~= members(o@));
        },
        _ => {},
    }
}

/// Where a member named `key` first stands among `o`, or the length of `o`.
pub open spec fn key_at(o: Seq<(Seq<char>, JsonV)>, key: Seq<char>) -> int
    decreases o.len(),
{
    if o.len() == 0 || o[0].0 == key {
        0
    } else {
        1 + key_at(o.skip(1), key)
    }
}

/// The value of the member named `key`.
pub open spec fn member(o: Seq<(Seq<char>, JsonV)>, key: Seq<char>) -> Option<JsonV> {
    let k = key_at(o, key);
    if 0 <= k < o.len() {
        Some(o[k].1)
    } else {
        None
    }
}

/// What `key_at` finds: the first member of that name, or the end when there is none.
pub proof fn lemma_key_at(o: Seq<(Seq<char>, JsonV)>, key: Seq<char>)
    ensures
        0 <= key_at(o, key) <= o.len(),
        forall|i: int| 0 <= i < key_at(o, key) ==> (#[trigger] o[i]).0 != key,
        key_at(o, key) < o.len() ==> o[key_at(o, key)].0 == key,
    decreases o.len(),
{
    if o.len() > 0 && o[0].0 != key {
        let t = o.skip(1);
        lemma_key_at(t, key);
        assert forall|i: int| 0 <= i < key_at(o, key) implies (#[trigger] o[i]).0 != key by {
            if i > 0 {
                assert(t[i - 1] == o[i]);
            }
        }
    }
}

/// The only position before which no member has that name, and which has it or is the end.
pub proof fn lemma_key_at_is(o: Seq<(Seq<char>, JsonV)>, key: Seq<char>, k: int)
    requires
        0 <= k <= o.len(),
        forall|i: int| 0 <= i < k ==> (#[trigger] o[i]).0 != key,
        k < o.len() ==> o[k].0 == key,
    ensures
        key_at(o, key) == k,
{
    lemma_key_at(o, key);
    if key_at(o, key) < k {
        assert(o[key_at(o, key)].0 == key);
    }
}

/// An object with one member set: in its place when it has the name already, else at the end.
pub open spec fn with_member(o: Seq<(Seq<char>, JsonV)>, key: Seq<char>, v: JsonV) -> Seq<
    (Seq<char>, JsonV),
> {
    let k = key_at(o, key);
    if 0 <= k < o.len() {
        o.update(k, (key, v))
    } else {
        o.push((key, v))
    }
}

/// A member that was set is found, and the others stay what they were.
pub proof fn lemma_with_member(
    o: Seq<(Seq<char>, JsonV)>,
    key: Seq<char>,
    v: JsonV,
    other: Seq<char>,
)
    ensures
        member(with_member(o, key, v), key) == Some(v),
        other != key ==> member(with_member(o, key, v), other) == member(o, other),
{
    lemma_key_at(o, key);
    lemma_key_at(o, other);
    let p = with_member(o, key, v);
    let k = key_at(o, key);
    lemma_key_at_is(p, key, k);
    if other != key {
        let m = key_at(o, other);
        if m < o.len() {
            lemma_key_at_is(p, other, m);
        } else {
            assert forall|i: int| 0 <= i < p.len() implies (#[trigger] p[i]).0 != other by {
                if i < o.len() && i != k {
                    assert(o[i].0 != other);
                }
            }
            lemma_key_at_is(p, other, p.len() as int);
        }
    }
}

/// Where the member named `key` stands among `o`, or the length of `o`.
fn find_key(o: &Vec<(String, Json)>, key: &str) -> (k: usize)
    ensures
        k == key_at(members(o@), key@),
        k <= o@.len(),
{
    let mut i: usize = 0;
    while i < o.len()
        invariant
            i <= o@.len(),
            forall|j: int| 0 <= j < i ==> (#[trigger] members(o@)[j]).0 != key@,
        decreases o@.len() - i,
    {
        if same(o[i].0.as_str(), key) {
            proof {
                lemma_key_at_is(members(o@), key@, i as int);
            }
            return i;
        }
        i += 1;
    }
    proof {
        lemma_key_at_is(members(o@), key@, i as int);
    }
    i
}

/// The value of the member named `key`.
pub fn get<'a>(o: &'a Vec<(String, Json)>, key: &str) -> (r: Option<&'a Json>)
    ensures
        match r {
            Some(v) => member(members(o@), key@) == Some(v@),
            None => member(members(o@), key@) is None,
        },
{
    let k: usize = find_key(o, key);
    if k < o.len() {
        proof {
            assert(members(o@)[k as int].1 == o@[k as int].1@);
        }
        Some(&o[k].1)
    } else {
        None
    }
}

/// Sets the member named `key`.
pub fn put(o: &mut Vec<(String, Json)>, key: &str, v: Json)
    ensures
        members(final(o)@) == with_member(members(old(o)@), key@, v@),
{
    let ghost before = members(o@);
    let k: usize = find_key(o, key);
    let ghost pair = (key@, v@);
    if k < o.len() {
        o.set(k, (key.to_owned(), v));
        proof {
            assert(members(o@) =~= before.update(k as int, pair));
        }
    } else {
        o.push((key.to_owned(), v));
        proof {
            assert(members(o@) =~= before.push(pair));
        }
    }
}

/// Adds a member at the end.
pub fn add_member(o: &mut Vec<(String, Json)>, key: &str, v: Json)
    ensures
        members(final(o)@) == members(old(o)@).push((key@, v@)),
{
    let ghost before = members(o@);
    let ghost pair = (key@, v@);
    o.push((key.to_owned(), v));
    proof {
        assert(members(o@) =~= before.push(pair));
    }
}

/// Adds a value at the end of a list.
pub fn add_value(a: &mut Vec<Json>, v: Json)
    ensures
        values(final(a)@) == values(old(a)@).push(v@),
{
    let ghost before = values(a@);
    let ghost value = v@;
    a.push(v);
    proof {
        assert(values(a@) =~= before.push(value));
    }
}

/// A JSON string.
pub fn string(s: &str) -> (j: Json)
    ensures
        j@ == JsonV::String(s@),
{
    Json::String(s.to_owned())
}

/// A JSON number that is not negative.
pub fn natural(n: u64) -> (j: Json)
    ensures
        j@ == JsonV::Number(NumV::Nat(n as nat)),
{
    Json::Number(Num::Nat(n))
}

impl Num {
    /// A number equal to this one.
    pub fn copy(&self) -> (r: Num)
        ensures
            r@ == self@,
    {
        match self {
            Num::Nat(n) => Num::Nat(*n),
            Num::Neg(n) => Num::Neg(*n),
            Num::Float(t) => Num::Float(t.clone()),
        }
    }
}

impl Json {
    /// A document equal to this one.
    pub fn copy(&self) -> (r: Json)
        ensures
            r@ == self@,
        decreases self,
    {
        broadcast use lemma_tree;

        match self {
            Json::Null => Json::Null,
            Json::Bool(b) => Json::Bool(*b),
            Json::Number(n) => Json::Number(n.copy()),
            Json::String(s) => Json::String(s.clone()),
            Json::Array(a) => {
                let mut out: Vec<Json> = Vec::new();
                let mut i: usize = 0;
                while i < a.len()
                    invariant
                        i <= a@.len(),
                        *self == Json::Array(*a),
                        values(out@) == values(a@).take(i as int),
                    decreases a@.len() - i,
                {
                    proof {
                        assert(self is Array && self->Array_0 == *a);
                        assert(decreases_to!(*self => self->Array_0));
                        assert(decreases_to!(self->Array_0 => self->Array_0@));
                        assert(decreases_to!(self->Array_0@ => self->Array_0@[i as int]));
                    }
                    let v = a[i].copy();
                    add_value(&mut out, v);
                    proof {
                        assert(values(a@).take(i + 1) =~= values(a@).take(i as int).push(
                            a@[i as int]@,
                        ));
                    }
                    i += 1;
                }
                proof {
                    assert(values(a@).take(i as int) =~= values(a@));
                }
                Json::Array(out)
            },
            Json::Object(o) => {
                let mut out: Vec<(String, Json)> = Vec::new();
                let mut i: usize = 0;
                while i < o.len()
                    invariant
                        i <= o@.len(),
                        *self == Json::Object(*o),
                        members(out@) == members(o@).take(i as int),
                    decreases o@.len() - i,
                {
                    proof {
                        assert(self is Object && self->Object_0 == *o);
                        assert(decreases_to!(*self => self->Object_0));
                        assert(decreases_to!(self->Object_0 => self->Object_0@));
                        assert(decreases_to!(self->Object_0@ => self->Object_0@[i as int]));
                        assert(decreases_to!(self->Object_0@[i as int] => self->Object_0@[i as int].1));
                    }
                    let v = o[i].1.copy();
                    add_member(&mut out, o[i].0.as_str(), v);
                    proof {
                        assert(members(o@).take(i + 1) =~= members(o@).take(i as int).push(
                            members(o@)[i as int],
                        ));
                    }
                    i += 1;
                }
                proof {
                    assert(members(o@).take(i as int) =~= members(o@));
                }
                Json::Object(out)
            },
        }
    }
}

// ---------------------------------------------------------------------------------------------
// Writing

/// One character inside a JSON string: quotes, backslashes and control characters escaped,
/// anything else as it is.
pub open spec fn escaped_char(c: char) -> Seq<char> {
    if c == '"' {
        seq!['\\', '"']
    } else if c == '\\' {
        seq!['\\', '\\']
    } else if c == '\n' {
        seq!['\\', 'n']
    } else if c == '\r' {
        seq!['\\', 'r']
    } else if c == '\t' {
        seq!['\\', 't']
    } else if c == '\u{8}' {
        seq!['\\', 'b']
    } else if c == '\u{c}' {
        seq!['\\', 'f']
    } else if (c as int) < 32 {
        seq!['\\', 'u'] + crate::text::zero_padded(crate::text::radix_text(c as nat, 16), 4)
    } else {
        seq![c]
    }
}

/// The characters of a text as they stand inside a JSON string.
pub open spec fn escaped(s: Seq<char>) -> Seq<char>
    decreases s.len(),
{
    if s.len() == 0 {
        Seq::empty()
    } else {
        escaped(s.drop_last()) + escaped_char(s.last())
    }
}

/// A text as a JSON string.
pub open spec fn quoted(s: Seq<char>) -> Seq<char> {
    seq!['"'] + escaped(s) + seq!['"']
}

/// A number as JSON text.
pub open spec fn number_text(n: NumV) -> Seq<char> {
    match n {
        NumV::Nat(n) => crate::text::dec(n),
        NumV::Neg(n) => if n < 0 {
            seq!['-'] + crate::text::dec((-n) as nat)
        } else {
            crate::text::dec(n as nat)
        },
        NumV::Float(t) => t,
    }
}

/// A document as JSON text, with `comma` between items and `colon` after names.
pub open spec fn written(v: JsonV, comma: Seq<char>, colon: Seq<char>) -> Seq<char>
    decreases v,
{
    match v {
        JsonV::Null => "null"@,
        JsonV::Bool(b) => if b {
            "true"@
        } else {
            "false"@
        },
        JsonV::Number(n) => number_text(n),
        JsonV::String(s) => quoted(s),
        JsonV::Array(a) => seq!['['] + written_list(a, comma, colon) + seq![']'],
        JsonV::Object(o) => seq!['{'] + written_members(o, comma, colon) + seq!['}'],
    }
}

/// The items of a list as JSON text.
pub open spec fn written_list(a: Seq<JsonV>, comma: Seq<char>, colon: Seq<char>) -> Seq<char>
    decreases a,
{
    if a.len() == 0 {
        Seq::empty()
    } else if a.len() == 1 {
        written(a[0], comma, colon)
    } else {
        written_list(a.drop_last(), comma, colon) + comma + written(a.last(), comma, colon)
    }
}

/// The members of an object as JSON text.
pub open spec fn written_members(
    o: Seq<(Seq<char>, JsonV)>,
    comma: Seq<char>,
    colon: Seq<char>,
) -> Seq<char>
    decreases o,
{
    if o.len() == 0 {
        Seq::empty()
    } else if o.len() == 1 {
        quoted(o[0].0) + colon + written(o[0].1, comma, colon)
    } else {
        written_members(o.drop_last(), comma, colon) + comma + (quoted(o.last().0) + colon
            + written(o.last().1, comma, colon))
    }
}

/// Appends one character as it stands inside a JSON string.
fn write_char(c: char, out: &mut String)
    ensures
        final(out)@ == old(out)@ + escaped_char(c),
{
    let ghost before = out@;
    if c == '"' {
        out.push('\\');
        out.push('"');
    } else if c == '\\' {
        out.push('\\');
        out.push('\\');
    } else if c == '\n' {
        out.push('\\');
        out.push('n');
    } else if c == '\r' {
        out.push('\\');
        out.push('r');
    } else if c == '\t' {
        out.push('\\');
        out.push('t');
    } else if c == '\u{8}' {
        out.push('\\');
        out.push('b');
    } else if c == '\u{c}' {
        out.push('\\');
        out.push('f');
    } else if (c as u32) < 32 {
        out.push('\\');
        out.push('u');
        let hex = in_base(c as u64, 16);
        let four = pad_zeros(hex.as_str(), 4);
        out.append(four.as_str());
    } else {
        out.push(c);
    }
    proof {
        assert(out@ =~= before + escaped_char(c));
    }
}

/// Appends a text as a JSON string.
pub fn write_str(s: &str, out: &mut String)
    ensures
        final(out)@ == old(out)@ + quoted(s@),
{
    let ghost before = out@;
    out.push('"');
    let v = crate::text::chars_of(s);
    let mut i: usize = 0;
    proof {
        assert(s@.take(0) =~= Seq::empty());
        assert(out@ =~= before + seq!['"'] + escaped(s@.take(0)));
    }
    while i < v.len()
        invariant
            v@ == s@,
            i <= v@.len(),
            out@ == before + seq!['"'] + escaped(s@.take(i as int)),
        decreases v@.len() - i,
    {
        write_char(v[i], out);
        proof {
            let t = s@.take(i + 1);
            assert(t.drop_last() =~= s@.take(i as int));
            assert(out@ =~= before + seq!['"'] + escaped(t));
        }
        i += 1;
    }
    out.push('"');
    proof {
        assert(s@.take(i as int) =~= s@);
        assert(out@ =~= before + quoted(s@));
    }
}

/// A number as JSON text.
pub fn write_number(n: &Num) -> (r: String)
    ensures
        r@ == number_text(n@),
{
    match n {
        Num::Nat(n) => decimal(*n),
        Num::Neg(n) => {
            if *n < 0 {
                let mut s = String::new();
                s.push('-');
                let m: u64 = (-(*n + 1)) as u64 + 1;
                s.append(decimal(m).as_str());
                proof {
                    assert(s@ =~= seq!['-'] + crate::text::dec((-*n) as nat));
                }
                s
            } else {
                decimal(*n as u64)
            }
        },
        Num::Float(t) => t.clone(),
    }
}

/// Appends a document as JSON text, with `comma` between items and `colon` after names.
pub fn write_json(v: &Json, comma: &str, colon: &str, out: &mut String)
    ensures
        final(out)@ == old(out)@ + written(v@, comma@, colon@),
    decreases v,
{
    broadcast use lemma_tree;

    let ghost before = out@;
    match v {
        Json::Null => out.append("null"),
        Json::Bool(b) => {
            if *b {
                out.append("true")
            } else {
                out.append("false")
            }
        },
        Json::Number(n) => {
            let t = write_number(n);
            out.append(t.as_str())
        },
        Json::String(s) => write_str(s.as_str(), out),
        Json::Array(a) => {
            let ghost all = values(a@);
            out.push('[');
            let mut i: usize = 0;
            proof {
                assert(all.take(0) =~= Seq::empty());
                assert(out@ =~= before + (seq!['['] + written_list(all.take(0), comma@, colon@)));
            }
            while i < a.len()
                invariant
                    i <= a@.len(),
                    *v == Json::Array(*a),
                    all == values(a@),
                    out@ == before + (seq!['['] + written_list(all.take(i as int), comma@, colon@)),
                decreases a@.len() - i,
            {
                proof {
                    assert(v is Array && v->Array_0 == *a);
                    assert(decreases_to!(*v => v->Array_0));
                    assert(decreases_to!(v->Array_0 => v->Array_0@));
                    assert(decreases_to!(v->Array_0@ => v->Array_0@[i as int]));
                }
                if i > 0 {
                    out.append(comma);
                }
                write_json(&a[i], comma, colon, out);
                proof {
                    let t = all.take(i + 1);
                    assert(t.drop_last() =~= all.take(i as int));
                    assert(out@ =~= before + (seq!['['] + written_list(t, comma@, colon@)));
                }
                i += 1;
            }
            out.push(']');
            proof {
                assert(all.take(i as int) =~= all);
                assert(out@ =~= before + written(v@, comma@, colon@));
            }
        },
        Json::Object(o) => {
            let ghost all = members(o@);
            out.push('{');
            let mut i: usize = 0;
            proof {
                assert(all.take(0) =~= Seq::empty());
                assert(out@ =~= before + (seq!['{'] + written_members(all.take(0), comma@, colon@)));
            }
            while i < o.len()
                invariant
                    i <= o@.len(),
                    *v == Json::Object(*o),
                    all == members(o@),
                    out@ == before + (seq!['{'] + written_members(all.take(i as int), comma@, colon@)),
                decreases o@.len() - i,
            {
                proof {
                    assert(v is Object && v->Object_0 == *o);
                    assert(decreases_to!(*v => v->Object_0));
                    assert(decreases_to!(v->Object_0 => v->Object_0@));
                    assert(decreases_to!(v->Object_0@ => v->Object_0@[i as int]));
                    assert(decreases_to!(v->Object_0@[i as int] => v->Object_0@[i as int].1));
                }
                if i > 0 {
                    out.append(comma);
                }
                write_str(o[i].0.as_str(), out);
                out.append(colon);
                write_json(&o[i].1, comma, colon, out);
                proof {
                    let t = all.take(i + 1);
                    assert(t.drop_last() =~= all.take(i as int));
                    assert(out@ =~= before + (seq!['{'] + written_members(t, comma@, colon@)));
                }
                i += 1;
            }
            out.push('}');
            proof {
                assert(all.take(i as int) =~= all);
                assert(out@ =~= before + written(v@, comma@, colon@));
            }
        },
    }
}

/// A document as JSON text without spaces.
pub open spec fn compact_text(v: JsonV) -> Seq<char> {
    written(v, ","@, ":"@)
}

/// A document as JSON text without spaces.
pub fn compact(v: &Json) -> (r: String)
    ensures
        r@ == compact_text(v@),
{
    let mut out = String::new();
    write_json(v, ",", ":", &mut out);
    proof {
        assert(out@ =~= compact_text(v@));
    }
    out
}

// ---------------------------------------------------------------------------------------------
// Reading

/// A value that `serde_json` has read.
#[verifier::external_type_specification]
#[verifier::external_body]
pub struct ExValue(serde_json::Value);

/// Why `serde_json` could not read a document.
#[verifier::external_type_specification]
#[verifier::external_body]
pub struct ExError(serde_json::Error);

/// What `serde_json::from_slice` makes of a byte string: the document it holds, or the column and
/// the message of the error.
pub uninterp spec fn json_of(bytes: Seq<u8>) -> Result<JsonV, (nat, Seq<char>)>;

/// The document a `serde_json::Value` holds.
pub uninterp spec fn value_of(v: serde_json::Value) -> JsonV;

/// What `serde_json::Error::column` says of an error.
pub uninterp spec fn column_of(e: serde_json::Error) -> nat;

/// What a `serde_json::Error` displays as.
pub uninterp spec fn message_of(e: serde_json::Error) -> Seq<char>;

/// One layer of a `serde_json::Value`.
enum Layer {
    Null,
    Bool(bool),
    Number(Num),
    String(String),
    Array(Vec<serde_json::Value>),
    Object(Vec<(String, serde_json::Value)>),
}

/// `serde_json::from_slice` into a `serde_json::Value`: what it returns depends on the bytes
/// alone.
#[verifier::external_body]
fn read_value(bytes: &[u8]) -> (r: Result<serde_json::Value, serde_json::Error>)
    ensures
        match r {
            Ok(v) => json_of(bytes@) == Ok::<JsonV, (nat, Seq<char>)>(value_of(v)),
            Err(e) => json_of(bytes@) == Err::<JsonV, (nat, Seq<char>)>(
                (column_of(e), message_of(e)),
            ),
        },
{
    serde_json::from_slice(bytes)
}

/// `serde_json::Error::column`.
#[verifier::external_body]
fn column(e: &serde_json::Error) -> (n: usize)
    ensures
        n == column_of(*e),
{
    e.column()
}

/// The `Display` text of a `serde_json::Error`.
#[verifier::external_body]
fn message(e: &serde_json::Error) -> (s: String)
    ensures
        s@ == message_of(*e),
{
    e.to_string()
}

/// The variants of `serde_json::Value`, told apart. A number is whole and not negative, whole and
/// negative, or has the text that `serde_json::Number` displays as. A `serde_json::Map` holds each
/// name once.
#[verifier::external_body]
fn layer(v: serde_json::Value) -> (r: Layer)
    ensures
        match r {
            Layer::Null => value_of(v) == JsonV::Null,
            Layer::Bool(b) => value_of(v) == JsonV::Bool(b),
            Layer::Number(n) => value_of(v) == JsonV::Number(n@),
            Layer::String(s) => value_of(v) == JsonV::String(s@),
            Layer::Array(a) => value_of(v) == JsonV::Array(
                Seq::new(a@.len(), |i: int| value_of(a@[i])),
            ),
            Layer::Object(o) => value_of(v) == JsonV::Object(
                Seq::new(o@.len(), |i: int| (o@[i].0@, value_of(o@[i].1))),
            ) && forall|i: int, j: int|
                0 <= i < j < o@.len() ==> (#[trigger] o@[i]).0@ != (#[trigger] o@[j]).0@,
        },
{
    match v {
        serde_json::Value::Null => Layer::Null,
        serde_json::Value::Bool(b) => Layer::Bool(b),
        serde_json::Value::Number(n) => Layer::Number(match (n.as_u64(), n.as_i64()) {
            (Some(n), _) => Num::Nat(n),
            (_, Some(n)) => Num::Neg(n),
            _ => Num::Float(n.to_string()),
        }),
        serde_json::Value::String(s) => Layer::String(s),
        serde_json::Value::Array(a) => Layer::Array(a),
        serde_json::Value::Object(o) => Layer::Object(o.into_iter().collect()),
    }
}

/// Whether every object in a document has each name once.
pub open spec fn tidy(v: JsonV) -> bool
    decreases v,
{
    match v {
        JsonV::Array(a) => forall|i: int| 0 <= i < a.len() ==> tidy(#[trigger] a[i]),
        JsonV::Object(o) => {
            &&& forall|i: int, j: int|
                0 <= i < j < o.len() ==> (#[trigger] o[i]).0 != (#[trigger] o[j]).0
            &&& forall|i: int| 0 <= i < o.len() ==> tidy((#[trigger] o[i]).1)
        },
        _ => true,
    }
}

/// The document a `serde_json::Value` holds.
fn import(v: serde_json::Value) -> (r: Json)
    ensures
        r@ == value_of(v),
        tidy(value_of(v)),
    decreases value_of(v),
{
    broadcast use lemma_tree;

    let ghost tree = value_of(v);
    match layer(v) {
        Layer::Null => Json::Null,
        Layer::Bool(b) => Json::Bool(b),
        Layer::Number(n) => Json::Number(n),
        Layer::String(s) => Json::String(s),
        Layer::Array(a) => {
            let ghost all = tree->Array_0;
            let mut out: Vec<Json> = Vec::new();
            let ghost n = a@.len();
            proof {
                assert(all.take(0) =~= values(out@));
            }
            for x in it: a
                invariant
                    it.seq().len() == n,
                    tree == value_of(v),
                    tree == JsonV::Array(all),
                    all == Seq::new(n, |i: int| value_of(it.seq()[i])),
                    values(out@) == all.take(it.index() as int),
                    forall|i: int| 0 <= i < it.index() ==> tidy(#[trigger] all[i]),
            {
                proof {
                    assert(tree is Array && tree->Array_0 == all);
                    assert(decreases_to!(tree => tree->Array_0));
                    assert(decreases_to!(tree->Array_0 => tree->Array_0[it.index() as int]));
                    assert(all.take(it.index() + 1) =~= all.take(it.index() as int).push(
                        all[it.index() as int],
                    ));
                }
                let j = import(x);
                add_value(&mut out, j);
            }
            proof {
                assert(all.take(n as int) =~= all);
            }
            Json::Array(out)
        },
        Layer::Object(o) => {
            let ghost all = tree->Object_0;
            let mut out: Vec<(String, Json)> = Vec::new();
            let ghost n = o@.len();
            proof {
                assert(all.take(0) =~= members(out@));
            }
            for x in it: o
                invariant
                    it.seq().len() == n,
                    tree == value_of(v),
                    tree == JsonV::Object(all),
                    all == Seq::new(n, |i: int| (it.seq()[i].0@, value_of(it.seq()[i].1))),
                    members(out@) == all.take(it.index() as int),
                    forall|i: int, j: int|
                        0 <= i < j < n ==> (#[trigger] all[i]).0 != (#[trigger] all[j]).0,
                    forall|i: int| 0 <= i < it.index() ==> tidy((#[trigger] all[i]).1),
            {
                proof {
                    assert(tree is Object && tree->Object_0 == all);
                    assert(decreases_to!(tree => tree->Object_0));
                    assert(decreases_to!(tree->Object_0 => tree->Object_0[it.index() as int]));
                    assert(decreases_to!(tree->Object_0[it.index() as int] => tree->Object_0[it.index() as int].1));
                    assert(all.take(it.index() + 1) =~= all.take(it.index() as int).push(
                        all[it.index() as int],
                    ));
                }
                let j = import(x.1);
                add_member(&mut out, x.0.as_str(), j);
            }
            proof {
                assert(all.take(n as int) =~= all);
            }
            Json::Object(out)
        },
    }
}

/// Why a byte string is no JSON document: the column where reading stopped, and a message.
#[derive(Debug, PartialEq, Eq)]
pub struct JsonError {
    pub column: usize,
    pub message: String,
}

/// Reads a JSON document.
pub fn parse(bytes: &[u8]) -> (r: Result<Json, JsonError>)
    ensures
        match r {
            Ok(j) => json_of(bytes@) == Ok::<JsonV, (nat, Seq<char>)>(j@) && tidy(j@),
            Err(e) => json_of(bytes@) == Err::<JsonV, (nat, Seq<char>)>(
                (e.column as nat, e.message@),
            ),
        },
{
    match read_value(bytes) {
        Ok(v) => Ok(import(v)),
        Err(e) => Err(JsonError { column: column(&e), message: message(&e) }),
    }
}

/// A member is found under its name when none before it has the same.
pub proof fn lemma_member_is(o: Seq<(Seq<char>, JsonV)>, k: int)
    requires
        0 <= k < o.len(),
        forall|i: int| 0 <= i < k ==> (#[trigger] o[i]).0 != o[k].0,
    ensures
        member(o, o[k].0) == Some(o[k].1),
{
    lemma_key_at_is(o, o[k].0, k);
}

/// Nothing is found under a name that no member has.
pub proof fn lemma_no_member(o: Seq<(Seq<char>, JsonV)>, key: Seq<char>)
    requires
        forall|i: int| 0 <= i < o.len() ==> (#[trigger] o[i]).0 != key,
    ensures
        member(o, key) is None,
{
    lemma_key_at_is(o, key, o.len() as int);
}

/// A whole number is written in digits, one below nothing with a sign; quotes, backslashes and control
/// characters are written behind a backslash, and other characters as they are.
pub proof fn lemma_numbers_and_characters_are_written(n: nat, c: char, i: int)
    ensures
        number_text(NumV::Nat(n)) == crate::text::dec(n),
        n > 0 ==> number_text(NumV::Neg(-(n as int))) == seq!['-'] + crate::text::dec(n),
        escaped_char('"') == seq!['\\', '"'],
        escaped_char('\\') == seq!['\\', '\\'],
        c >= ' ' && c != '"' && c != '\\' ==> escaped_char(c) == seq![c],
        c < ' ' ==> escaped_char(c).len() >= 2 && escaped_char(c)[0] == '\\',
        escaped_char('\n') == seq!['\\', 'n'],
        escaped_char('\r') == seq!['\\', 'r'],
        escaped_char('\t') == seq!['\\', 't'],
{
}

/// Nothing and truth values are written by their names, and texts in quotes.
pub proof fn lemma_values_are_written_by_name(a: Seq<char>, b: Seq<char>)
    ensures
        written(JsonV::Null, a, b) == "null"@,
        written(JsonV::Bool(true), a, b) == "true"@,
        written(JsonV::Bool(false), a, b) == "false"@,
        written(JsonV::String(a), ","@, b) == quoted(a),
        compact_text(JsonV::Bool(true)) == "true"@,
        forall|v: JsonV| compact_text(v) == #[trigger] written(v, ","@, ":"@),
{
}

} // verus!
