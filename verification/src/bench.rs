//! Load generation: the requests that are replayed, the responses that are read, and which
//! latencies are reported.

use vstd::prelude::*;
use vstd::string::*;

use crate::data;
use crate::json::{self, add_member, add_value, get, string, Json, JsonV};
use crate::text::{self, chars_of, decimal, parse_nat, split_once, split_words, strip_prefix, text_of, trim};

verus! {

broadcast use crate::json::lemma_tree;

// ---------------------------------------------------------------------------------------------
// Requests

/// A question with the long names of its fields, whichever names it came with; other fields are
/// dropped.
pub open spec fn long_question(v: JsonV) -> JsonV {
    let none = Seq::<(Seq<char>, JsonV)>::empty();
    let a = with_field(none, "type"@, either(v, "t"@, "type"@));
    let b = with_field(a, "instructions"@, either(v, "ins"@, "instructions"@));
    JsonV::Object(with_field(b, "criteria"@, either(v, "crit"@, "criteria"@)))
}

/// What an object has under one name, or else under another.
pub open spec fn either(v: JsonV, a: Seq<char>, b: Seq<char>) -> Option<JsonV> {
    match data::part(v, a) {
        Some(x) => Some(x),
        None => data::part(v, b),
    }
}

/// An object with one more field, when there is a value for it.
pub open spec fn with_field(
    o: Seq<(Seq<char>, JsonV)>,
    key: Seq<char>,
    v: Option<JsonV>,
) -> Seq<(Seq<char>, JsonV)> {
    match v {
        Some(x) => o.push((key, x)),
        None => o,
    }
}

fn add_field(o: &mut Vec<(String, Json)>, key: &str, v: &Json, a: &str, b: &str)
    ensures
        json::members(final(o)@) == with_field(json::members(old(o)@), key@, either(v@, a@, b@)),
{
    match v {
        Json::Object(m) => {
            match get(m, a) {
                Some(x) => add_member(o, key, x.copy()),
                None => match get(m, b) {
                    Some(x) => add_member(o, key, x.copy()),
                    None => {},
                },
            }
        },
        _ => {},
    }
}

/// A question with the long names of its fields.
pub fn to_jev_question(v: &Json) -> (r: Json)
    ensures
        r@ == long_question(v@),
{
    let mut o: Vec<(String, Json)> = Vec::new();
    proof {
        assert(json::members(o@) =~= Seq::empty());
    }
    add_field(&mut o, "type", v, "t", "type");
    add_field(&mut o, "instructions", v, "ins", "instructions");
    add_field(&mut o, "criteria", v, "crit", "criteria");
    Json::Object(o)
}

/// The request that a record stands for: its state and its questions. There is none without an
/// object of questions.
pub open spec fn request_of(rec: JsonV) -> Option<JsonV> {
    match data::part(rec, "questions"@) {
        Some(JsonV::Object(m)) => Some(
            JsonV::Object(
                seq![
                    (
                        "state"@,
                        match data::part(rec, "state"@) {
                            Some(s) => s,
                            None => JsonV::Null,
                        },
                    ),
                    ("model"@, JsonV::String("jev-latest"@)),
                    (
                        "questions"@,
                        JsonV::Object(Seq::new(m.len(), |i: int| (m[i].0, long_question(m[i].1)))),
                    ),
                ],
            ),
        ),
        _ => None,
    }
}

/// The request that a record stands for.
pub fn record_request(rec: &Json) -> (r: Option<Json>)
    ensures
        match r {
            Some(j) => request_of(rec@) == Some(j@),
            None => request_of(rec@) is None,
        },
{
    match rec {
        Json::Object(o) => match get(o, "questions") {
            Some(Json::Object(m)) => {
                let ghost ms = json::members(m@);
                let ghost all = Seq::new(ms.len(), |i: int| (ms[i].0, long_question(ms[i].1)));
                let mut qs: Vec<(String, Json)> = Vec::new();
                let mut i: usize = 0;
                proof {
                    assert(json::members(qs@) =~= all.take(0));
                }
                while i < m.len()
                    invariant
                        i <= m@.len(),
                        ms == json::members(m@),
                        all == Seq::new(ms.len(), |i: int| (ms[i].0, long_question(ms[i].1))),
                        json::members(qs@) == all.take(i as int),
                    decreases m@.len() - i,
                {
                    let q = to_jev_question(&m[i].1);
                    add_member(&mut qs, m[i].0.as_str(), q);
                    proof {
                        assert(ms[i as int] == (m@[i as int].0@, m@[i as int].1@));
                        assert(all.take(i + 1) =~= all.take(i as int).push(all[i as int]));
                    }
                    i += 1;
                }
                proof {
                    assert(all.take(i as int) =~= all);
                }
                let state = match get(o, "state") {
                    Some(s) => s.copy(),
                    None => Json::Null,
                };
                let mut p: Vec<(String, Json)> = Vec::new();
                add_member(&mut p, "state", state);
                add_member(&mut p, "model", string("jev-latest"));
                add_member(&mut p, "questions", Json::Object(qs));
                proof {
                    assert(json::members(p@) =~= request_of(rec@)->0->Object_0);
                }
                Some(Json::Object(p))
            },
            _ => None,
        },
        _ => None,
    }
}

/// Why a file gives no requests.
#[derive(Debug, PartialEq, Eq)]
pub enum RequestError {
    /// A line is no JSON document.
    BadJson(String),
    /// A record has no questions.
    NoQuestions,
    /// There is no record.
    NoRequests,
}

/// Why a file gives no requests.
pub enum RequestErrorV {
    BadJson(Seq<char>),
    NoQuestions,
    NoRequests,
}

impl View for RequestError {
    type V = RequestErrorV;

    open spec fn view(&self) -> RequestErrorV {
        match *self {
            RequestError::BadJson(m) => RequestErrorV::BadJson(m@),
            RequestError::NoQuestions => RequestErrorV::NoQuestions,
            RequestError::NoRequests => RequestErrorV::NoRequests,
        }
    }
}

impl RequestErrorV {
    /// The error in words.
    pub open spec fn words(self) -> Seq<char> {
        match self {
            RequestErrorV::BadJson(m) => m,
            RequestErrorV::NoQuestions => "record needs questions"@,
            RequestErrorV::NoRequests => "no requests"@,
        }
    }
}

impl RequestError {
    /// The error in words.
    pub fn message(&self) -> (r: String)
        ensures
            r@ == self@.words(),
    {
        match self {
            RequestError::BadJson(m) => m.clone(),
            RequestError::NoQuestions => "record needs questions".to_owned(),
            RequestError::NoRequests => "no requests".to_owned(),
        }
    }
}

/// The requests that lines stand for, or what is wrong with the first one at fault. Blank lines
/// are passed over.
pub open spec fn requests_in(lines: Seq<Seq<char>>) -> Result<Seq<JsonV>, RequestErrorV>
    decreases lines.len(),
{
    if lines.len() == 0 {
        Ok(Seq::empty())
    } else {
        match requests_in(lines.drop_last()) {
            Err(e) => Err(e),
            Ok(s) => if text::trimmed(lines.last()).len() == 0 {
                Ok(s)
            } else {
                match json::json_of(vstd::utf8::encode_utf8(lines.last())) {
                    Err(e) => Err(RequestErrorV::BadJson(e.1)),
                    Ok(v) => match request_of(v) {
                        Some(q) => Ok(s.push(q)),
                        None => Err(RequestErrorV::NoQuestions),
                    },
                }
            },
        }
    }
}

/// The requests of a file with a record per line; it needs one.
pub open spec fn requests_of(file: Seq<char>) -> Result<Seq<JsonV>, RequestErrorV> {
    match requests_in(text::lines_of(file)) {
        Ok(s) => if s.len() == 0 {
            Err(RequestErrorV::NoRequests)
        } else {
            Ok(s)
        },
        Err(e) => Err(e),
    }
}

proof fn lemma_requests_fail(lines: Seq<Seq<char>>, n: int)
    requires
        0 <= n <= lines.len(),
        requests_in(lines.take(n)) is Err,
    ensures
        requests_in(lines) == requests_in(lines.take(n)),
    decreases lines.len() - n,
{
    if n < lines.len() {
        assert(lines.take(n + 1).drop_last() =~= lines.take(n));
        lemma_requests_fail(lines, n + 1);
    } else {
        assert(lines.take(n) =~= lines);
    }
}

/// The requests of a file with a record per line (a state and questions; what else it has is
/// dropped).
pub fn load_requests(file: &str) -> (r: Result<Vec<Json>, RequestError>)
    ensures
        match r {
            Ok(v) => requests_of(file@) == Ok::<Seq<JsonV>, RequestErrorV>(json::values(v@)),
            Err(e) => requests_of(file@) == Err::<Seq<JsonV>, RequestErrorV>(e@),
        },
{
    let lines = text::lines(file);
    let ghost all = text::texts(lines@);
    let mut out: Vec<Json> = Vec::new();
    let mut i: usize = 0;
    proof {
        assert(all.take(0) =~= Seq::empty());
        assert(json::values(out@) =~= Seq::empty());
    }
    while i < lines.len()
        invariant
            i <= lines@.len(),
            all == text::texts(lines@),
            all == text::lines_of(file@),
            requests_in(all.take(i as int)) == Ok::<Seq<JsonV>, RequestErrorV>(json::values(out@)),
        decreases lines@.len() - i,
    {
        proof {
            assert(all.take(i + 1).drop_last() =~= all.take(i as int));
            assert(all.take(i + 1).last() == lines@[i as int]@);
        }
        if trim(lines[i].as_str()).as_str().unicode_len() > 0 {
            let v = match json::parse(lines[i].as_str().as_bytes()) {
                Ok(v) => v,
                Err(e) => {
                    proof {
                        lemma_requests_fail(all, i + 1);
                    }
                    return Err(RequestError::BadJson(e.message));
                },
            };
            match record_request(&v) {
                Some(q) => add_value(&mut out, q),
                None => {
                    proof {
                        lemma_requests_fail(all, i + 1);
                    }
                    return Err(RequestError::NoQuestions);
                },
            }
        }
        i += 1;
    }
    proof {
        assert(all.take(i as int) =~= all);
        assert(json::values(out@).len() == out@.len());
    }
    if out.len() == 0 {
        Err(RequestError::NoRequests)
    } else {
        Ok(out)
    }
}

/// How many questions a request has.
pub fn question_count(req: &Json) -> (n: usize)
    ensures
        n == (match data::part(req@, "questions"@) {
            Some(JsonV::Object(m)) => m.len(),
            _ => 0,
        }),
{
    match req {
        Json::Object(o) => match get(o, "questions") {
            Some(Json::Object(m)) => m.len(),
            _ => 0,
        },
        _ => 0,
    }
}

// ---------------------------------------------------------------------------------------------
// HTTP

/// A text without the slashes at its end.
pub open spec fn without_slashes(s: Seq<char>) -> Seq<char>
    decreases s.len(),
{
    if s.len() > 0 && s.last() == '/' {
        without_slashes(s.drop_last())
    } else {
        s
    }
}

/// The host and port of a server's address; there is none unless it begins with `http://`.
pub fn host_of(url: &str) -> (r: Option<String>)
    ensures
        match r {
            Some(h) => text::begins(url@, "http://"@) && h@ == without_slashes(
                url@.skip("http://"@.len() as int),
            ),
            None => !text::begins(url@, "http://"@),
        },
{
    match strip_prefix(url, "http://") {
        Some(rest) => {
            let v = chars_of(rest.as_str());
            let mut n: usize = v.len();
            proof {
                assert(rest@.take(n as int) =~= rest@);
            }
            while n > 0 && v[n - 1] == '/'
                invariant
                    v@ == rest@,
                    n <= v@.len(),
                    without_slashes(rest@) == without_slashes(rest@.take(n as int)),
                decreases n,
            {
                proof {
                    assert(rest@.take(n as int).drop_last() =~= rest@.take(n - 1));
                }
                n -= 1;
            }
            let h = text_of(&v, 0, n);
            proof {
                assert(h@ =~= rest@.take(n as int));
            }
            Some(h)
        },
        None => None,
    }
}

/// The head of a request with a body of so many bytes.
pub fn request_head(host: &str, len: usize) -> (r: String)
    ensures
        r@ == "POST /v1/systemone HTTP/1.1\r\nHost: "@ + host@
            + "\r\nContent-Type: application/json\r\nContent-Length: "@ + text::dec(len as nat)
            + "\r\n\r\n"@,
{
    let mut r = "POST /v1/systemone HTTP/1.1\r\nHost: ".to_owned();
    r.append(host);
    r.append("\r\nContent-Type: application/json\r\nContent-Length: ");
    r.append(decimal(len as u64).as_str());
    r.append("\r\n\r\n");
    r
}

/// The status that a status line gives: its second word.
pub open spec fn status_of(line: Seq<char>) -> Option<nat> {
    let w = text::words(line);
    if w.len() > 1 {
        text::read_nat(w[1], u16::MAX as nat)
    } else {
        None
    }
}

/// The status that a status line gives.
pub fn read_status(line: &str) -> (r: Option<u16>)
    ensures
        match r {
            Some(n) => status_of(line@) == Some(n as nat),
            None => status_of(line@) is None,
        },
{
    let w = split_words(line);
    proof {
        assert(text::texts(w@).len() == w@.len());
    }
    if w.len() > 1 {
        proof {
            assert(text::texts(w@)[1] == w@[1]@);
        }
        match parse_nat(w[1].as_str(), u16::MAX as u64) {
            Some(n) => Some(n as u16),
            None => None,
        }
    } else {
        None
    }
}

/// A character with ASCII capitals made small.
pub open spec fn small(c: char) -> char {
    if 'A' <= c && c <= 'Z' {
        (c as int + 32) as char
    } else {
        c
    }
}

/// Whether two texts are the same but for ASCII capitals.
pub open spec fn alike(a: Seq<char>, b: Seq<char>) -> bool {
    a.len() == b.len() && forall|i: int| 0 <= i < a.len() ==> small(#[trigger] a[i]) == small(b[i])
}

fn make_small(c: char) -> (r: u32)
    ensures
        r == small(c) as u32,
{
    if 'A' <= c && c <= 'Z' {
        c as u32 + 32
    } else {
        c as u32
    }
}

fn is_alike(a: &str, b: &str) -> (r: bool)
    ensures
        r == alike(a@, b@),
{
    let v = chars_of(a);
    let w = chars_of(b);
    if v.len() != w.len() {
        return false;
    }
    let mut i: usize = 0;
    while i < v.len()
        invariant
            v@ == a@,
            w@ == b@,
            v@.len() == w@.len(),
            i <= v@.len(),
            forall|j: int| 0 <= j < i ==> small(#[trigger] a@[j]) == small(b@[j]),
        decreases v@.len() - i,
    {
        if make_small(v[i]) != make_small(w[i]) {
            proof {
                assert(small(a@[i as int]) != small(b@[i as int]));
            }
            return false;
        }
        i += 1;
    }
    true
}

/// What a header line says of the body's length.
#[derive(Clone, Copy, PartialEq, Eq, Structural, Debug)]
pub enum LengthHeader {
    /// Nothing.
    Other,
    /// So many bytes.
    Length(usize),
    /// Something that is no number.
    Invalid,
}

/// What a header line says of the body's length.
pub open spec fn length_in(line: Seq<char>) -> LengthHeader {
    match text::cut_at(line, ':') {
        Some((k, v)) => if alike(k, "content-length"@) {
            match text::read_nat(text::trimmed(v), usize::MAX as nat) {
                Some(n) => LengthHeader::Length(n as usize),
                None => LengthHeader::Invalid,
            }
        } else {
            LengthHeader::Other
        },
        None => LengthHeader::Other,
    }
}

/// What a header line says of the body's length.
pub fn read_length(line: &str) -> (r: LengthHeader)
    ensures
        r == length_in(line@),
{
    match split_once(line, ':') {
        Some((k, v)) => {
            if is_alike(k.as_str(), "content-length") {
                match parse_nat(trim(v.as_str()).as_str(), usize::MAX as u64) {
                    Some(n) => LengthHeader::Length(n as usize),
                    None => LengthHeader::Invalid,
                }
            } else {
                LengthHeader::Other
            }
        },
        None => LengthHeader::Other,
    }
}

/// Whether a line ends the head of a response.
pub fn ends_head(line: &str) -> (r: bool)
    ensures
        r == (line@ == "\r\n"@ || line@.len() == 0),
{
    text::same(line, "\r\n") || line.unicode_len() == 0
}

/// What a line of a response's head leads to.
#[derive(Clone, Copy, PartialEq, Eq, Structural, Debug)]
pub enum HeadStep {
    /// The head goes on.
    More,
    /// The head is over; the body follows.
    Done,
    /// The first line gives no status.
    BadStatus,
    /// The body's length is no number.
    BadLength,
}

/// What the lines of a response's head have said.
#[derive(Clone, Copy, PartialEq, Eq, Structural, Debug)]
pub struct ReplyHead {
    pub status: Option<u16>,
    /// The length of the body, which the last line that gives one decides.
    pub length: usize,
}

impl ReplyHead {
    /// Nothing has been said yet; there may be no body.
    pub fn new() -> (r: ReplyHead)
        ensures
            r == (ReplyHead { status: None, length: 0 }),
    {
        ReplyHead { status: None, length: 0 }
    }

    /// Takes a line: the first gives the status, the others may give the body's length, up to an
    /// empty one.
    pub fn take_line(&mut self, line: &str) -> (r: HeadStep)
        ensures
            match old(self).status {
                None => match status_of(line@) {
                    Some(n) => r == HeadStep::More && final(self).status == Some(n as u16)
                        && final(self).length == old(self).length,
                    None => r == HeadStep::BadStatus && *final(self) == *old(self),
                },
                Some(_) => if line@ == "\r\n"@ || line@.len() == 0 {
                    r == HeadStep::Done && *final(self) == *old(self)
                } else {
                    match length_in(line@) {
                        LengthHeader::Length(n) => r == HeadStep::More && *final(self) == (
                        ReplyHead { length: n, ..*old(self) }),
                        LengthHeader::Invalid => r == HeadStep::BadLength && *final(self) == *old(
                            self,
                        ),
                        LengthHeader::Other => r == HeadStep::More && *final(self) == *old(self),
                    }
                },
            },
    {
        if self.status.is_none() {
            return match read_status(line) {
                Some(n) => {
                    self.status = Some(n);
                    HeadStep::More
                },
                None => HeadStep::BadStatus,
            };
        }
        if ends_head(line) {
            return HeadStep::Done;
        }
        match read_length(line) {
            LengthHeader::Length(n) => {
                self.length = n;
                HeadStep::More
            },
            LengthHeader::Invalid => HeadStep::BadLength,
            LengthHeader::Other => HeadStep::More,
        }
    }
}

// ---------------------------------------------------------------------------------------------
// Percentiles

/// The place of a percentile among `n` latencies in order: the nearest, and the later of two
/// that are as near.
pub open spec fn rank_of(n: int, percent: int) -> int {
    (2 * (n - 1) * percent + 100) / 200
}

/// The place of a percentile among `n` latencies in order.
pub fn rank(n: usize, percent: usize) -> (r: usize)
    requires
        n > 0,
        percent <= 100,
    ensures
        r == rank_of(n as int, percent as int),
        r < n,
{
    proof {
        assert(0 <= 2 * (n - 1) * percent <= 2 * (n - 1) * 100) by (nonlinear_arith)
            requires
                n >= 1,
                percent <= 100,
        ;
    }
    let x: u128 = 2 * (n as u128 - 1) * percent as u128 + 100;
    (x / 200) as usize
}

/// Which request a client sends: clients start one apart and step by seven.
pub fn warmup_request(client: usize, i: usize, requests: usize) -> (r: usize)
    requires
        requests > 0,
        client + i * 7 <= usize::MAX,
    ensures
        r == (client + i * 7) % (requests as int),
        r < requests,
{
    (client + i * 7) % requests
}

// ---------------------------------------------------------------------------------------------
// What requests and replies say

/// A question is sent with its type, its instructions and its criteria under their long names,
/// whichever it has them under, the short ones first.
pub proof fn lemma_questions_are_sent_under_long_names(o: Seq<(Seq<char>, JsonV)>)
    ensures
        ({
            &&& long_question(JsonV::Object(o)) matches JsonV::Object(r)
            &&& json::member(r, "type"@) == if json::member(o, "t"@) is Some {
                json::member(o, "t"@)
            } else {
                json::member(o, "type"@)
            }
            &&& json::member(r, "instructions"@) == if json::member(o, "ins"@) is Some {
                json::member(o, "ins"@)
            } else {
                json::member(o, "instructions"@)
            }
            &&& json::member(r, "criteria"@) == if json::member(o, "crit"@) is Some {
                json::member(o, "crit"@)
            } else {
                json::member(o, "criteria"@)
            }
        }),
{
    reveal_strlit("type");
    reveal_strlit("instructions");
    reveal_strlit("criteria");
    assert("type"@.len() == 4);
    assert("instructions"@.len() == 12);
    assert("criteria"@.len() == 8);
    let v = JsonV::Object(o);
    let none = Seq::<(Seq<char>, JsonV)>::empty();
    let x = either(v, "t"@, "type"@);
    let y = either(v, "ins"@, "instructions"@);
    let z = either(v, "crit"@, "criteria"@);
    let a = with_field(none, "type"@, x);
    let b = with_field(a, "instructions"@, y);
    let c = with_field(b, "criteria"@, z);
    if x is Some {
        json::lemma_member_is(c, 0);
    } else {
        json::lemma_no_member(c, "type"@);
    }
    if y is Some {
        json::lemma_member_is(c, a.len() as int);
    } else {
        json::lemma_no_member(c, "instructions"@);
    }
    if z is Some {
        json::lemma_member_is(c, b.len() as int);
    } else {
        json::lemma_no_member(c, "criteria"@);
    }
}

/// Names are alike when they differ in the case of letters only: a letter is alike to itself in
/// either case, and a character that is no letter only to itself.
pub proof fn lemma_names_are_alike_in_any_case(a: Seq<char>, b: Seq<char>, i: int)
    ensures
        alike(a, a),
        alike(a, b) == alike(b, a),
        a.len() != b.len() ==> !alike(a, b),
        alike(a, b) && 0 <= i < a.len() && a[i] != b[i] ==> {
            ||| 'A' <= a[i] <= 'Z' && b[i] as int == a[i] as int + 32
            ||| 'A' <= b[i] <= 'Z' && a[i] as int == b[i] as int + 32
        },
        'A' <= a[0] <= 'Z' && a.len() == 1 && b.len() == 1 && b[0] as int == a[0] as int + 32
            ==> alike(a, b),
{
    if alike(a, b) {
        assert forall|k: int| 0 <= k < b.len() implies small(#[trigger] b[k]) == small(a[k]) by {
            assert(small(a[k]) == small(b[k]));
        }
        if 0 <= i < a.len() {
            assert(small(a[i]) == small(b[i]));
        }
    }
    if alike(b, a) {
        assert forall|k: int| 0 <= k < a.len() implies small(#[trigger] a[k]) == small(b[k]) by {
            assert(small(b[k]) == small(a[k]));
        }
    }
}

/// The length of a reply is what stands behind its name, and nothing is read from other headers.
pub proof fn lemma_lengths_are_read(n: nat, name: Seq<char>)
    requires
        n <= usize::MAX,
        !name.contains(':'),
    ensures
        alike(name, "content-length"@) ==> length_in(name + seq![':'] + text::dec(n))
            == LengthHeader::Length(n as usize),
        !alike(name, "content-length"@) ==> length_in(name + seq![':'] + text::dec(n))
            == LengthHeader::Other,
{
    text::lemma_cutting_parts_at_the_first(name, ':', text::dec(n));
    text::lemma_numbers_read_back(n, usize::MAX as nat);
    let d = text::dec(n);
    text::lemma_dec_is_digits(n);
    let (a, b) = text::lemma_trimming_takes_the_ends(d);
    if a.len() > 0 {
        assert(text::is_space(a[0]) && d[0] == a[0]);
        assert('0' <= d[0] <= '9');
    }
    if b.len() > 0 {
        let k = d.len() - b.len();
        assert(text::is_space(b[0]) && d[k] == b[0]);
        assert('0' <= d[k] <= '9');
    }
    assert(text::trimmed(d) =~= d);
}

/// The status of a reply is the second word of its first line.
pub proof fn lemma_statuses_are_the_second_word(version: Seq<char>, n: nat, rest: Seq<char>)
    requires
        version.len() > 0,
        forall|i: int| 0 <= i < version.len() ==> !text::is_space(#[trigger] version[i]),
        n <= u16::MAX,
    ensures
        status_of(version + seq![' '] + (text::dec(n) + seq![' '] + rest)) == Some(n),
{
    let d = text::dec(n);
    text::lemma_dec_is_digits(n);
    text::lemma_numbers_read_back(n, u16::MAX as nat);
    assert(d.len() > 0);
    assert forall|i: int| 0 <= i < d.len() implies !text::is_space(#[trigger] d[i]) by {
        assert('0' <= d[i] <= '9');
    }
    text::lemma_words_stand_between_white_space(version, ' ', d + seq![' '] + rest);
    text::lemma_words_stand_between_white_space(d, ' ', rest);
    let w = text::words(version + seq![' '] + (d + seq![' '] + rest));
    assert(w[1] == d);
}

/// The rank of a percentile is the nearest: the first of all at nothing, the last at a hundred.
pub proof fn lemma_percentiles_span_all(n: int, percent: int)
    requires
        n >= 1,
        0 <= percent <= 100,
    ensures
        rank_of(n, 0) == 0,
        rank_of(n, 100) == n - 1,
        0 <= rank_of(n, percent) < n,
        200 * rank_of(n, percent) <= 2 * (n - 1) * percent + 100 < 200 * (rank_of(n, percent) + 1),
{
    let x = (n - 1) * percent;
    assert(0 <= x <= (n - 1) * 100) by (nonlinear_arith)
        requires
            x == (n - 1) * percent,
            n >= 1,
            0 <= percent <= 100,
    ;
    assert(2 * (n - 1) * percent == 2 * x) by (nonlinear_arith)
        requires
            x == (n - 1) * percent,
    ;
    assert(2 * (n - 1) * 0 == 0) by (nonlinear_arith);
    assert(2 * (n - 1) * 100 == 200 * (n - 1)) by (nonlinear_arith);
}

/// A record is sent as a request with its own state, for the newest model, and with each of its
/// questions under its own id; without questions it is not sent.
pub proof fn lemma_records_are_sent_as_they_are(rec: Seq<(Seq<char>, JsonV)>, i: int)
    ensures
        !(json::member(rec, "questions"@) matches Some(JsonV::Object(_))) ==> request_of(
            JsonV::Object(rec),
        ) is None,
        json::member(rec, "questions"@) matches Some(JsonV::Object(m)) ==> {
            &&& request_of(JsonV::Object(rec)) matches Some(JsonV::Object(o))
            &&& json::member(rec, "state"@) is Some ==> json::member(o, "state"@) == json::member(
                rec,
                "state"@,
            )
            &&& json::member(o, "model"@) == Some(JsonV::String("jev-latest"@))
            &&& json::member(o, "questions"@) matches Some(JsonV::Object(qs))
            &&& qs.len() == m.len()
            &&& 0 <= i < m.len() ==> qs[i].0 == m[i].0 && qs[i].1 == long_question(m[i].1)
        },
{
    reveal_strlit("state");
    reveal_strlit("model");
    reveal_strlit("questions");
    assert("state"@.len() == 5);
    assert("model"@.len() == 5);
    assert("questions"@.len() == 9);
    assert("model"@[0] == 'm');
    assert("state"@[0] == 's');
    if let Some(JsonV::Object(m)) = json::member(rec, "questions"@) {
        if let Some(JsonV::Object(o)) = request_of(JsonV::Object(rec)) {
            json::lemma_member_is(o, 0);
            json::lemma_member_is(o, 1);
            json::lemma_member_is(o, 2);
        }
    }
}

/// A file without a request is refused, and any other gives a request for each line that has one.
pub proof fn lemma_files_need_a_request(file: Seq<char>)
    ensures
        requests_in(text::lines_of(file)) == Ok::<Seq<JsonV>, RequestErrorV>(Seq::empty())
            ==> requests_of(file) == Err::<Seq<JsonV>, RequestErrorV>(RequestErrorV::NoRequests),
        requests_of(file) matches Ok(s) ==> s.len() > 0 && requests_in(text::lines_of(file)) == Ok::<
            Seq<JsonV>,
            RequestErrorV,
        >(s),
{
}

} // verus!
