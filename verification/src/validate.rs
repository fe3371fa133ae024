//! Request validation: what a request body must hold, and what is said of one that does not.
//!
//! A body that fails is answered with a list of errors, each with the path of the field, a kind,
//! a message, and the input or the limits it is about.

use vstd::prelude::*;
use vstd::string::*;

use crate::json::{self, add_member, add_value, compact, get, natural, string, Json, JsonV, NumV};
use crate::sequence::{
    self, copy_maybe, copy_members, copy_values, read_type, render_criterion, Criteria, CriteriaV,
    QType, Question, QuestionV,
};
use crate::text::{self, decimal};

verus! {

broadcast use crate::json::lemma_tree;

/// The most options a choice may have.
pub const MAX_CHOICE_OPTIONS: usize = 255;

/// The most levels a score may have.
pub const MAX_SCORE_LEVELS: usize = 10;

/// One entry of the list of errors.
#[derive(Debug, PartialEq, Eq)]
pub struct FieldError {
    /// The path of the field.
    pub loc: Vec<Json>,
    pub msg: String,
    pub kind: &'static str,
    pub input: Option<Json>,
    pub ctx: Option<Json>,
}

/// The value of an error.
#[verifier::ext_equal]
pub struct FieldErrorV {
    pub loc: Seq<JsonV>,
    pub msg: Seq<char>,
    pub kind: Seq<char>,
    pub input: Option<JsonV>,
    pub ctx: Option<JsonV>,
}

impl View for FieldError {
    type V = FieldErrorV;

    open spec fn view(&self) -> FieldErrorV {
        FieldErrorV {
            loc: json::values(self.loc@),
            msg: self.msg@,
            kind: self.kind@,
            input: sequence::maybe(self.input),
            ctx: sequence::maybe(self.ctx),
        }
    }
}

/// The values of several errors.
pub open spec fn faults(v: Seq<FieldError>) -> Seq<FieldErrorV> {
    Seq::new(v.len(), |i: int| v[i]@)
}

/// An error without input and limits.
pub open spec fn fault(loc: Seq<JsonV>, kind: Seq<char>, msg: Seq<char>) -> FieldErrorV {
    FieldErrorV { loc, msg, kind, input: None, ctx: None }
}

impl FieldErrorV {
    /// The error, with the input it is about.
    pub open spec fn about(self, v: JsonV) -> FieldErrorV {
        FieldErrorV { input: Some(v), ..self }
    }

    /// The error, with the limits it is about.
    pub open spec fn given(self, v: JsonV) -> FieldErrorV {
        FieldErrorV { ctx: Some(v), ..self }
    }

    /// The error as it stands in a response.
    pub open spec fn entry(self) -> JsonV {
        let base = seq![
            ("type"@, JsonV::String(self.kind)),
            ("loc"@, JsonV::Array(self.loc)),
            ("msg"@, JsonV::String(self.msg)),
        ];
        let more = match self.input {
            Some(v) => base.push(("input"@, v)),
            None => base,
        };
        JsonV::Object(
            match self.ctx {
                Some(v) => more.push(("ctx"@, v)),
                None => more,
            },
        )
    }
}

impl FieldError {
    /// An error without input and limits.
    pub fn new(loc: Vec<Json>, kind: &'static str, msg: String) -> (r: FieldError)
        ensures
            r@ == fault(json::values(loc@), kind@, msg@),
    {
        FieldError { loc, msg, kind, input: None, ctx: None }
    }

    /// The error, with the input it is about.
    pub fn input(self, v: &Json) -> (r: FieldError)
        ensures
            r@ == self@.about(v@),
    {
        FieldError {
            loc: self.loc,
            msg: self.msg,
            kind: self.kind,
            input: Some(v.copy()),
            ctx: self.ctx,
        }
    }

    /// The error, with the limits it is about.
    pub fn ctx(self, v: Json) -> (r: FieldError)
        ensures
            r@ == self@.given(v@),
    {
        FieldError {
            loc: self.loc,
            msg: self.msg,
            kind: self.kind,
            input: self.input,
            ctx: Some(v),
        }
    }

    /// The error as it stands in a response.
    pub fn to_json(&self) -> (r: Json)
        ensures
            r@ == self@.entry(),
    {
        let mut o: Vec<(String, Json)> = Vec::new();
        add_member(&mut o, "type", string(self.kind));
        add_member(&mut o, "loc", Json::Array(copy_values(&self.loc)));
        add_member(&mut o, "msg", string(self.msg.as_str()));
        proof {
            assert(json::members(o@) =~= seq![
                ("type"@, JsonV::String(self.kind@)),
                ("loc"@, JsonV::Array(self@.loc)),
                ("msg"@, JsonV::String(self.msg@)),
            ]);
        }
        match &self.input {
            Some(v) => add_member(&mut o, "input", v.copy()),
            None => {},
        }
        match &self.ctx {
            Some(v) => add_member(&mut o, "ctx", v.copy()),
            None => {},
        }
        Json::Object(o)
    }
}

/// The body of a response that lists errors.
pub open spec fn fault_body(errors: Seq<FieldErrorV>) -> JsonV {
    JsonV::Object(
        seq![("detail"@, JsonV::Array(Seq::new(errors.len(), |i: int| errors[i].entry())))],
    )
}

/// The body of a response that lists errors.
pub fn validation_body(errors: &[FieldError]) -> (r: Json)
    ensures
        r@ == fault_body(faults(errors@)),
{
    let ghost all = Seq::new(errors@.len(), |i: int| errors@[i]@.entry());
    let mut list: Vec<Json> = Vec::new();
    let mut i: usize = 0;
    proof {
        assert(json::values(list@) =~= all.take(0));
    }
    while i < errors.len()
        invariant
            i <= errors@.len(),
            all == Seq::new(errors@.len(), |i: int| errors@[i]@.entry()),
            json::values(list@) == all.take(i as int),
        decreases errors@.len() - i,
    {
        add_value(&mut list, errors[i].to_json());
        proof {
            assert(all.take(i + 1) =~= all.take(i as int).push(all[i as int]));
        }
        i += 1;
    }
    let mut o: Vec<(String, Json)> = Vec::new();
    proof {
        assert(all.take(i as int) =~= all);
        assert(all =~= Seq::new(faults(errors@).len(), |i: int| faults(errors@)[i].entry()));
    }
    add_member(&mut o, "detail", Json::Array(list));
    let r = Json::Object(o);
    proof {
        assert(json::members(o@) =~= seq![("detail"@, JsonV::Array(all))]);
    }
    r
}

/// Adds an error at the end.
pub fn push_error(v: &mut Vec<FieldError>, e: FieldError)
    ensures
        faults(final(v)@) == faults(old(v)@).push(e@),
{
    let ghost before = faults(v@);
    let ghost value = e@;
    v.push(e);
    proof {
        assert(faults(v@) =~= before.push(value));
    }
}

/// One error.
pub fn one_error(e: FieldError) -> (v: Vec<FieldError>)
    ensures
        faults(v@) == seq![e@],
{
    let mut v: Vec<FieldError> = Vec::new();
    push_error(&mut v, e);
    proof {
        assert(faults(v@) =~= seq![e@]);
    }
    v
}

// ---------------------------------------------------------------------------------------------
// Paths and limits

/// The path of a field of the body.
pub open spec fn body_path(field: Seq<char>) -> Seq<JsonV> {
    seq![JsonV::String("body"@), JsonV::String(field)]
}

/// The path of a question.
pub open spec fn question_path(id: Seq<char>) -> Seq<JsonV> {
    seq![JsonV::String("body"@), JsonV::String("questions"@), JsonV::String(id)]
}

/// The path of a field of a question, which names the question's type.
pub open spec fn field_path(id: Seq<char>, t: QType, field: Seq<char>) -> Seq<JsonV> {
    question_path(id).push(JsonV::String(t.label())).push(JsonV::String(field))
}

/// A path.
pub fn path(names: &[&str]) -> (r: Vec<Json>)
    ensures
        json::values(r@) == Seq::new(names@.len(), |i: int| JsonV::String(names@[i]@)),
{
    let ghost all = Seq::new(names@.len(), |i: int| JsonV::String(names@[i]@));
    let mut r: Vec<Json> = Vec::new();
    let mut i: usize = 0;
    proof {
        assert(json::values(r@) =~= all.take(0));
    }
    while i < names.len()
        invariant
            i <= names@.len(),
            all == Seq::new(names@.len(), |i: int| JsonV::String(names@[i]@)),
            json::values(r@) == all.take(i as int),
        decreases names@.len() - i,
    {
        add_value(&mut r, string(names[i]));
        proof {
            assert(all.take(i + 1) =~= all.take(i as int).push(all[i as int]));
        }
        i += 1;
    }
    proof {
        assert(all.take(i as int) =~= all);
    }
    r
}

/// The path of a field of the body.
pub fn body_loc(field: &str) -> (r: Vec<Json>)
    ensures
        json::values(r@) == body_path(field@),
{
    let r = path(&["body", field]);
    proof {
        assert(json::values(r@) =~= body_path(field@));
    }
    r
}

fn question_loc(id: &str) -> (r: Vec<Json>)
    ensures
        json::values(r@) == question_path(id@),
{
    let r = path(&["body", "questions", id]);
    proof {
        assert(json::values(r@) =~= question_path(id@));
    }
    r
}

fn field_loc(id: &str, t: QType, field: &str) -> (r: Vec<Json>)
    ensures
        json::values(r@) == field_path(id@, t, field@),
{
    let mut r = question_loc(id);
    add_value(&mut r, string(t.name()));
    add_value(&mut r, string(field));
    r
}

/// The least length of a list or an object, and the length it has.
pub open spec fn least_length(what: Seq<char>, min: nat, actual: nat) -> JsonV {
    JsonV::Object(
        seq![
            ("field_type"@, JsonV::String(what)),
            ("min_length"@, JsonV::Number(NumV::Nat(min))),
            ("actual_length"@, JsonV::Number(NumV::Nat(actual))),
        ],
    )
}

/// The greatest length of a list or an object, and the length it has.
pub open spec fn greatest_length(what: Seq<char>, max: nat, actual: nat) -> JsonV {
    JsonV::Object(
        seq![
            ("field_type"@, JsonV::String(what)),
            ("max_length"@, JsonV::Number(NumV::Nat(max))),
            ("actual_length"@, JsonV::Number(NumV::Nat(actual))),
        ],
    )
}

fn min_length(what: &str, min: u64, actual: u64) -> (r: Json)
    ensures
        r@ == least_length(what@, min as nat, actual as nat),
{
    let mut o: Vec<(String, Json)> = Vec::new();
    add_member(&mut o, "field_type", string(what));
    add_member(&mut o, "min_length", natural(min));
    add_member(&mut o, "actual_length", natural(actual));
    proof {
        assert(json::members(o@) =~= least_length(what@, min as nat, actual as nat)->Object_0);
    }
    Json::Object(o)
}

/// The greatest length of a list or an object, and the length it has.
pub fn max_length(what: &str, max: u64, actual: u64) -> (r: Json)
    ensures
        r@ == greatest_length(what@, max as nat, actual as nat),
{
    let mut o: Vec<(String, Json)> = Vec::new();
    add_member(&mut o, "field_type", string(what));
    add_member(&mut o, "max_length", natural(max));
    add_member(&mut o, "actual_length", natural(actual));
    proof {
        assert(json::members(o@) =~= greatest_length(what@, max as nat, actual as nat)->Object_0);
    }
    Json::Object(o)
}

// ---------------------------------------------------------------------------------------------
// Entries

/// Whether a value may stand where a text is wanted: a string, an object or a list.
pub open spec fn entry_like(v: JsonV) -> bool {
    v is String || v is Object || v is Array
}

/// What is said of a value that may not stand where a text is wanted.
pub open spec fn entry_fault(loc: Seq<JsonV>, v: JsonV) -> FieldErrorV {
    fault(loc, "string_type"@, "Input should be a valid string"@).about(v)
}

fn is_entry(v: &Json) -> (r: bool)
    ensures
        r == entry_like(v@),
{
    match v {
        Json::String(_) => true,
        Json::Object(_) => true,
        Json::Array(_) => true,
        _ => false,
    }
}

fn is_null(v: &Json) -> (r: bool)
    ensures
        r == (v@ == JsonV::Null),
{
    match v {
        Json::Null => true,
        _ => false,
    }
}

fn entry_error(loc: Vec<Json>, v: &Json) -> (r: FieldError)
    ensures
        r@ == entry_fault(json::values(loc@), v@),
{
    FieldError::new(loc, "string_type", "Input should be a valid string".to_owned()).input(v)
}

// ---------------------------------------------------------------------------------------------
// Questions

/// The question types as messages list them.
pub open spec fn type_list() -> Seq<char> {
    "'noul', 'choice', 'score'"@
}

/// What is said of something that is no object.
pub open spec fn object_fault(loc: Seq<JsonV>, v: JsonV) -> FieldErrorV {
    fault(
        loc,
        "model_attributes_type"@,
        "Input should be a valid dictionary or object to extract fields from"@,
    ).about(v)
}

/// What is said of a question without a type.
pub open spec fn no_type_fault(id: Seq<char>, q: JsonV) -> FieldErrorV {
    fault(
        question_path(id),
        "union_tag_not_found"@,
        "Unable to extract tag using discriminator 'type'"@,
    ).about(q).given(JsonV::Object(seq![("discriminator"@, JsonV::String("'type'"@))]))
}

/// What is said of a question whose type is not one.
pub open spec fn bad_type_fault(id: Seq<char>, q: JsonV, tag: Seq<char>) -> FieldErrorV {
    fault(
        question_path(id),
        "union_tag_invalid"@,
        "Input tag '"@ + tag
            + "' found using 'type' does not match any of the expected tags: "@ + type_list(),
    ).about(q).given(
        JsonV::Object(
            seq![
                ("discriminator"@, JsonV::String("'type'"@)),
                ("tag"@, JsonV::String(tag)),
                ("expected_tags"@, JsonV::String(type_list())),
            ],
        ),
    )
}

/// A type as messages show it: its text, or the JSON it is.
pub open spec fn tag_text(v: JsonV) -> Seq<char> {
    match v {
        JsonV::String(s) => s,
        _ => json::compact_text(v),
    }
}

/// The instructions of a question and what is wrong with them.
pub open spec fn instructions_of(loc: Seq<JsonV>, v: Option<JsonV>) -> (
    Seq<char>,
    Seq<FieldErrorV>,
) {
    match v {
        None => (Seq::empty(), Seq::empty()),
        Some(JsonV::Null) => (Seq::empty(), Seq::empty()),
        Some(v) => if entry_like(v) {
            (sequence::criterion_text(v), Seq::empty())
        } else {
            (Seq::empty(), seq![entry_fault(loc, v)])
        },
    }
}

/// What is wrong with the number of options of a choice.
pub open spec fn choice_size_faults(loc: Seq<JsonV>, n: nat) -> Seq<FieldErrorV> {
    if n == 0 {
        seq![
            fault(loc, "too_short"@, "A choice needs at least one option"@).about(
                JsonV::Object(Seq::empty()),
            ).given(least_length("Dictionary"@, 1, 0)),
        ]
    } else if n > MAX_CHOICE_OPTIONS {
        seq![
            fault(
                loc,
                "too_long"@,
                "A choice can have at most "@ + text::dec(MAX_CHOICE_OPTIONS as nat)
                    + " options, not "@ + text::dec(n),
            ).given(greatest_length("Dictionary"@, MAX_CHOICE_OPTIONS as nat, n)),
        ]
    } else {
        Seq::empty()
    }
}

/// What is wrong with the descriptions of a choice's options: each is null or an entry.
pub open spec fn option_faults(loc: Seq<JsonV>, m: Seq<(Seq<char>, JsonV)>) -> Seq<FieldErrorV>
    decreases m.len(),
{
    if m.len() == 0 {
        Seq::empty()
    } else {
        let rest = option_faults(loc, m.drop_last());
        let (k, v) = m.last();
        if v == JsonV::Null || entry_like(v) {
            rest
        } else {
            rest.push(entry_fault(loc.push(JsonV::String(k)), v))
        }
    }
}

/// What is wrong with the number of levels of a score.
pub open spec fn score_size_faults(loc: Seq<JsonV>, n: nat) -> Seq<FieldErrorV> {
    if n == 0 {
        seq![
            fault(
                loc,
                "too_short"@,
                "List should have at least 1 item after validation, not 0"@,
            ).about(JsonV::Array(Seq::empty())).given(least_length("List"@, 1, 0)),
        ]
    } else if n > MAX_SCORE_LEVELS {
        seq![
            fault(
                loc,
                "too_long"@,
                "A score can have at most "@ + text::dec(MAX_SCORE_LEVELS as nat)
                    + " levels, not "@ + text::dec(n),
            ).given(greatest_length("List"@, MAX_SCORE_LEVELS as nat, n)),
        ]
    } else {
        Seq::empty()
    }
}

/// What is wrong with the criteria of a score's levels: each is an entry.
pub open spec fn level_faults(loc: Seq<JsonV>, a: Seq<JsonV>) -> Seq<FieldErrorV>
    decreases a.len(),
{
    if a.len() == 0 {
        Seq::empty()
    } else {
        let rest = level_faults(loc, a.drop_last());
        if entry_like(a.last()) {
            rest
        } else {
            rest.push(
                entry_fault(
                    loc.push(JsonV::Number(NumV::Nat((a.len() - 1) as nat))),
                    a.last(),
                ),
            )
        }
    }
}

/// What is wrong with one side of a `noul`: it is null or an entry.
pub open spec fn side_faults(
    loc: Seq<JsonV>,
    m: Seq<(Seq<char>, JsonV)>,
    side: Seq<char>,
) -> Seq<FieldErrorV> {
    match json::member(m, side) {
        None => Seq::empty(),
        Some(v) => if v == JsonV::Null || entry_like(v) {
            Seq::empty()
        } else {
            seq![entry_fault(loc.push(JsonV::String(side)), v)]
        },
    }
}

/// The criteria of a question, where they are of the right sort, and what is wrong with them.
pub open spec fn checked_criteria(
    t: QType,
    loc: Seq<JsonV>,
    q: JsonV,
    crit: Option<JsonV>,
) -> (Option<CriteriaV>, Seq<FieldErrorV>) {
    match t {
        QType::Choice => match crit {
            None => (None, seq![fault(loc, "missing"@, "Field required"@).about(q)]),
            Some(JsonV::Object(m)) => (
                Some(CriteriaV::Choice(m)),
                choice_size_faults(loc, m.len()) + option_faults(loc, m),
            ),
            Some(v) => (
                None,
                seq![fault(loc, "dict_type"@, "Input should be a valid dictionary"@).about(v)],
            ),
        },
        QType::Score => match crit {
            None => (None, seq![fault(loc, "missing"@, "Field required"@).about(q)]),
            Some(JsonV::Array(a)) => (
                Some(CriteriaV::Score(a)),
                score_size_faults(loc, a.len()) + level_faults(loc, a),
            ),
            Some(v) => (
                None,
                seq![fault(loc, "list_type"@, "Input should be a valid list"@).about(v)],
            ),
        },
        QType::Noul => match crit {
            None => (Some(CriteriaV::Noul(None, None)), Seq::empty()),
            Some(JsonV::Null) => (Some(CriteriaV::Noul(None, None)), Seq::empty()),
            Some(JsonV::Object(m)) => (
                Some(CriteriaV::Noul(json::member(m, "false"@), json::member(m, "true"@))),
                side_faults(loc, m, "true"@) + side_faults(loc, m, "false"@),
            ),
            Some(v) => (None, seq![object_fault(loc, v)]),
        },
    }
}

/// The question that a member of `questions` holds, or all that is wrong with it.
pub open spec fn asked(id: Seq<char>, q: JsonV) -> Result<QuestionV, Seq<FieldErrorV>> {
    match q {
        JsonV::Object(o) => match json::member(o, "type"@) {
            None => Err(seq![no_type_fault(id, q)]),
            Some(tag) => match named_type(tag) {
                None => Err(seq![bad_type_fault(id, q, tag_text(tag))]),
                Some(t) => {
                    let (ins, ins_faults) = instructions_of(
                        field_path(id, t, "instructions"@),
                        json::member(o, "instructions"@),
                    );
                    let (crit, crit_faults) = checked_criteria(
                        t,
                        field_path(id, t, "criteria"@),
                        q,
                        json::member(o, "criteria"@),
                    );
                    let all = ins_faults + crit_faults;
                    if crit is Some && all.len() == 0 {
                        Ok(QuestionV { t, ins, crit: crit->0, labels: None })
                    } else {
                        Err(all)
                    }
                },
            },
        },
        _ => Err(seq![object_fault(question_path(id), q)]),
    }
}

/// The type a tag names.
pub open spec fn named_type(tag: JsonV) -> Option<QType> {
    match tag {
        JsonV::String(s) => sequence::type_named(s),
        _ => None,
    }
}

fn check_options(loc: &Vec<Json>, m: &Vec<(String, Json)>, errs: &mut Vec<FieldError>)
    ensures
        faults(final(errs)@) == faults(old(errs)@) + option_faults(
            json::values(loc@),
            json::members(m@),
        ),
{
    let ghost before = faults(errs@);
    let ghost all = json::members(m@);
    let ghost at = json::values(loc@);
    let mut i: usize = 0;
    proof {
        assert(all.take(0) =~= Seq::empty());
        assert(faults(errs@) =~= before + option_faults(at, all.take(0)));
    }
    while i < m.len()
        invariant
            i <= m@.len(),
            all == json::members(m@),
            at == json::values(loc@),
            faults(errs@) == before + option_faults(at, all.take(i as int)),
        decreases m@.len() - i,
    {
        proof {
            assert(all.take(i + 1).drop_last() =~= all.take(i as int));
            assert(all.take(i + 1).last() == all[i as int]);
        }
        if !is_null(&m[i].1) && !is_entry(&m[i].1) {
            let mut l = copy_values(loc);
            add_value(&mut l, string(m[i].0.as_str()));
            push_error(errs, entry_error(l, &m[i].1));
            proof {
                assert(faults(errs@) =~= before + option_faults(at, all.take(i + 1)));
            }
        }
        i += 1;
    }
    proof {
        assert(all.take(i as int) =~= all);
    }
}

fn check_levels(loc: &Vec<Json>, a: &Vec<Json>, errs: &mut Vec<FieldError>)
    ensures
        faults(final(errs)@) == faults(old(errs)@) + level_faults(
            json::values(loc@),
            json::values(a@),
        ),
{
    let ghost before = faults(errs@);
    let ghost all = json::values(a@);
    let ghost at = json::values(loc@);
    let mut i: usize = 0;
    proof {
        assert(all.take(0) =~= Seq::empty());
        assert(faults(errs@) =~= before + level_faults(at, all.take(0)));
    }
    while i < a.len()
        invariant
            i <= a@.len(),
            all == json::values(a@),
            at == json::values(loc@),
            faults(errs@) == before + level_faults(at, all.take(i as int)),
        decreases a@.len() - i,
    {
        proof {
            assert(all.take(i + 1).drop_last() =~= all.take(i as int));
            assert(all.take(i + 1).last() == all[i as int]);
        }
        if !is_entry(&a[i]) {
            let mut l = copy_values(loc);
            add_value(&mut l, natural(i as u64));
            push_error(errs, entry_error(l, &a[i]));
            proof {
                assert(faults(errs@) =~= before + level_faults(at, all.take(i + 1)));
            }
        }
        i += 1;
    }
    proof {
        assert(all.take(i as int) =~= all);
    }
}

fn check_side(loc: &Vec<Json>, m: &Vec<(String, Json)>, side: &str, errs: &mut Vec<FieldError>)
    ensures
        faults(final(errs)@) == faults(old(errs)@) + side_faults(
            json::values(loc@),
            json::members(m@),
            side@,
        ),
{
    let ghost before = faults(errs@);
    let ghost want = side_faults(json::values(loc@), json::members(m@), side@);
    match get(m, side) {
        Some(v) => {
            if !is_null(v) && !is_entry(v) {
                let mut l = copy_values(loc);
                add_value(&mut l, string(side));
                push_error(errs, entry_error(l, v));
            }
        },
        None => {},
    }
    proof {
        assert(faults(errs@) =~= before + want);
    }
}

/// The limits a size is held to, in a message.
fn size_message(what: &str, max: usize, unit: &str, n: usize) -> (r: String)
    ensures
        r@ == what@ + text::dec(max as nat) + unit@ + text::dec(n as nat),
{
    let mut r = what.to_owned();
    r.append(decimal(max as u64).as_str());
    r.append(unit);
    r.append(decimal(n as u64).as_str());
    r
}

fn check_choice_size(loc: &Vec<Json>, n: usize, errs: &mut Vec<FieldError>)
    ensures
        faults(final(errs)@) == faults(old(errs)@) + choice_size_faults(
            json::values(loc@),
            n as nat,
        ),
{
    let ghost before = faults(errs@);
    let ghost want = choice_size_faults(json::values(loc@), n as nat);
    if n == 0 {
        let empty = Json::Object(Vec::new());
        proof {
            assert(empty@->Object_0 =~= Seq::empty());
        }
        let e = FieldError::new(
            copy_values(loc),
            "too_short",
            "A choice needs at least one option".to_owned(),
        );
        push_error(errs, e.input(&empty).ctx(min_length("Dictionary", 1, 0)));
    } else if n > MAX_CHOICE_OPTIONS {
        let m = size_message(
            "A choice can have at most ",
            MAX_CHOICE_OPTIONS,
            " options, not ",
            n,
        );
        let e = FieldError::new(copy_values(loc), "too_long", m);
        push_error(
            errs,
            e.ctx(max_length("Dictionary", MAX_CHOICE_OPTIONS as u64, n as u64)),
        );
    }
    proof {
        assert(faults(errs@) =~= before + want);
    }
}

fn check_score_size(loc: &Vec<Json>, n: usize, errs: &mut Vec<FieldError>)
    ensures
        faults(final(errs)@) == faults(old(errs)@) + score_size_faults(
            json::values(loc@),
            n as nat,
        ),
{
    let ghost before = faults(errs@);
    let ghost want = score_size_faults(json::values(loc@), n as nat);
    if n == 0 {
        let empty = Json::Array(Vec::new());
        proof {
            assert(empty@->Array_0 =~= Seq::empty());
        }
        let e = FieldError::new(
            copy_values(loc),
            "too_short",
            "List should have at least 1 item after validation, not 0".to_owned(),
        );
        push_error(errs, e.input(&empty).ctx(min_length("List", 1, 0)));
    } else if n > MAX_SCORE_LEVELS {
        let m = size_message("A score can have at most ", MAX_SCORE_LEVELS, " levels, not ", n);
        let e = FieldError::new(copy_values(loc), "too_long", m);
        push_error(errs, e.ctx(max_length("List", MAX_SCORE_LEVELS as u64, n as u64)));
    }
    proof {
        assert(faults(errs@) =~= before + want);
    }
}

fn object_error(loc: Vec<Json>, v: &Json) -> (r: FieldError)
    ensures
        r@ == object_fault(json::values(loc@), v@),
{
    FieldError::new(
        loc,
        "model_attributes_type",
        "Input should be a valid dictionary or object to extract fields from".to_owned(),
    ).input(v)
}

/// What is said of a field that is not there.
pub fn missing_error(loc: Vec<Json>, v: &Json) -> (r: FieldError)
    ensures
        r@ == fault(json::values(loc@), "missing"@, "Field required"@).about(v@),
{
    FieldError::new(loc, "missing", "Field required".to_owned()).input(v)
}

fn check_criteria(
    t: QType,
    loc: Vec<Json>,
    q: &Json,
    crit: Option<&Json>,
    errs: &mut Vec<FieldError>,
) -> (r: Option<Criteria>)
    ensures
        ({
            let c = match crit {
                Some(c) => Some(c@),
                None => None,
            };
            let (want, wrong) = checked_criteria(t, json::values(loc@), q@, c);
            &&& faults(final(errs)@) == faults(old(errs)@) + wrong
            &&& match r {
                Some(c) => want == Some(c@),
                None => want is None,
            }
        }),
{
    let ghost before = faults(errs@);
    let ghost at = json::values(loc@);
    let ghost c = match crit {
        Some(c) => Some(c@),
        None => None,
    };
    let ghost wrong = checked_criteria(t, at, q@, c).1;
    match t {
        QType::Choice => match crit {
            None => {
                push_error(errs, missing_error(loc, q));
                proof {
                    assert(faults(errs@) =~= before + wrong);
                }
                None
            },
            Some(Json::Object(m)) => {
                check_choice_size(&loc, m.len(), errs);
                check_options(&loc, m, errs);
                proof {
                    assert(faults(errs@) =~= before + wrong);
                }
                Some(Criteria::Choice(copy_members(m)))
            },
            Some(v) => {
                let e = FieldError::new(
                    loc,
                    "dict_type",
                    "Input should be a valid dictionary".to_owned(),
                );
                push_error(errs, e.input(v));
                proof {
                    assert(faults(errs@) =~= before + wrong);
                }
                None
            },
        },
        QType::Score => match crit {
            None => {
                push_error(errs, missing_error(loc, q));
                proof {
                    assert(faults(errs@) =~= before + wrong);
                }
                None
            },
            Some(Json::Array(a)) => {
                check_score_size(&loc, a.len(), errs);
                check_levels(&loc, a, errs);
                proof {
                    assert(faults(errs@) =~= before + wrong);
                }
                Some(Criteria::Score(copy_values(a)))
            },
            Some(v) => {
                let e = FieldError::new(
                    loc,
                    "list_type",
                    "Input should be a valid list".to_owned(),
                );
                push_error(errs, e.input(v));
                proof {
                    assert(faults(errs@) =~= before + wrong);
                }
                None
            },
        },
        QType::Noul => match crit {
            None => {
                proof {
                    assert(faults(errs@) =~= before + wrong);
                }
                Some(Criteria::Noul { false_crit: None, true_crit: None })
            },
            Some(Json::Null) => {
                proof {
                    assert(faults(errs@) =~= before + wrong);
                }
                Some(Criteria::Noul { false_crit: None, true_crit: None })
            },
            Some(Json::Object(m)) => {
                check_side(&loc, m, "true", errs);
                check_side(&loc, m, "false", errs);
                proof {
                    assert(faults(errs@) =~= before + wrong);
                }
                let false_crit = copy_maybe(get(m, "false"));
                let true_crit = copy_maybe(get(m, "true"));
                Some(Criteria::Noul { false_crit, true_crit })
            },
            Some(v) => {
                push_error(errs, object_error(loc, v));
                proof {
                    assert(faults(errs@) =~= before + wrong);
                }
                None
            },
        },
    }
}

fn no_type_error(id: &str, q: &Json) -> (r: FieldError)
    ensures
        r@ == no_type_fault(id@, q@),
{
    let mut o: Vec<(String, Json)> = Vec::new();
    add_member(&mut o, "discriminator", string("'type'"));
    proof {
        assert(json::members(o@) =~= seq![("discriminator"@, JsonV::String("'type'"@))]);
    }
    FieldError::new(
        question_loc(id),
        "union_tag_not_found",
        "Unable to extract tag using discriminator 'type'".to_owned(),
    ).input(q).ctx(Json::Object(o))
}

fn bad_type_error(id: &str, q: &Json, tag: &str) -> (r: FieldError)
    ensures
        r@ == bad_type_fault(id@, q@, tag@),
{
    let tags = "'noul', 'choice', 'score'";
    let mut m = "Input tag '".to_owned();
    m.append(tag);
    m.append("' found using 'type' does not match any of the expected tags: ");
    m.append(tags);
    let mut o: Vec<(String, Json)> = Vec::new();
    add_member(&mut o, "discriminator", string("'type'"));
    add_member(&mut o, "tag", string(tag));
    add_member(&mut o, "expected_tags", string(tags));
    proof {
        assert(json::members(o@) =~= seq![
            ("discriminator"@, JsonV::String("'type'"@)),
            ("tag"@, JsonV::String(tag@)),
            ("expected_tags"@, JsonV::String(type_list())),
        ]);
    }
    FieldError::new(question_loc(id), "union_tag_invalid", m).input(q).ctx(Json::Object(o))
}

/// The question that a member of `questions` holds, or all that is wrong with it.
pub fn parse_question(id: &str, q: &Json) -> (r: Result<Question, Vec<FieldError>>)
    ensures
        match r {
            Ok(a) => asked(id@, q@) == Ok::<QuestionV, Seq<FieldErrorV>>(a@),
            Err(e) => asked(id@, q@) == Err::<QuestionV, Seq<FieldErrorV>>(faults(e@)),
        },
{
    match q {
        Json::Object(o) => {
            let t = match get(o, "type") {
                None => return Err(one_error(no_type_error(id, q))),
                Some(Json::String(s)) => match read_type(s.as_str()) {
                    Some(t) => t,
                    None => return Err(one_error(bad_type_error(id, q, s.as_str()))),
                },
                Some(tag) => {
                    let shown = compact(tag);
                    return Err(one_error(bad_type_error(id, q, shown.as_str())));
                },
            };
            let mut errs: Vec<FieldError> = Vec::new();
            let ghost ins_loc = field_path(id@, t, "instructions"@);
            let ghost ins_v = json::member(json::members(o@), "instructions"@);
            proof {
                assert(faults(errs@) =~= Seq::empty());
            }
            let ins = match get(o, "instructions") {
                None => String::new(),
                Some(Json::Null) => String::new(),
                Some(v) => {
                    if is_entry(v) {
                        render_criterion(v)
                    } else {
                        push_error(&mut errs, entry_error(field_loc(id, t, "instructions"), v));
                        String::new()
                    }
                },
            };
            proof {
                assert(faults(errs@) =~= instructions_of(ins_loc, ins_v).1);
                assert(ins@ =~= instructions_of(ins_loc, ins_v).0);
            }
            let crit = check_criteria(
                t,
                field_loc(id, t, "criteria"),
                q,
                get(o, "criteria"),
                &mut errs,
            );
            match crit {
                Some(crit) => {
                    if errs.len() == 0 {
                        Ok(Question { t, ins, crit, labels: None })
                    } else {
                        Err(errs)
                    }
                },
                None => Err(errs),
            }
        },
        _ => Err(one_error(object_error(question_loc(id), q))),
    }
}

// ---------------------------------------------------------------------------------------------
// Requests

/// A validated request.
#[derive(Debug, PartialEq, Eq)]
pub struct SystemOneRequest {
    pub state: Json,
    pub model: String,
    /// Questions in request order, keyed by the caller's ids.
    pub questions: Vec<(String, Question)>,
}

/// The value of a request.
#[verifier::ext_equal]
pub struct RequestV {
    pub state: JsonV,
    pub model: Seq<char>,
    pub questions: Seq<(Seq<char>, QuestionV)>,
}

/// The questions of a request, with their ids.
pub open spec fn keyed(v: Seq<(String, Question)>) -> Seq<(Seq<char>, QuestionV)> {
    Seq::new(v.len(), |i: int| (v[i].0@, v[i].1@))
}

impl View for SystemOneRequest {
    type V = RequestV;

    open spec fn view(&self) -> RequestV {
        RequestV {
            state: self.state@,
            model: self.model@,
            questions: keyed(self.questions@),
        }
    }
}

/// The state of a request and what is wrong with it.
pub open spec fn state_of(v: JsonV, o: Seq<(Seq<char>, JsonV)>) -> (JsonV, Seq<FieldErrorV>) {
    let loc = body_path("state"@);
    match json::member(o, "state"@) {
        None => (JsonV::Null, seq![fault(loc, "missing"@, "Field required"@).about(v)]),
        Some(s) => if entry_like(s) {
            (s, Seq::empty())
        } else {
            (JsonV::Null, seq![entry_fault(loc, s)])
        },
    }
}

/// The model a request names and what is wrong with it.
pub open spec fn model_of(v: JsonV, o: Seq<(Seq<char>, JsonV)>) -> (
    Seq<char>,
    Seq<FieldErrorV>,
) {
    let loc = body_path("model"@);
    match json::member(o, "model"@) {
        None => (Seq::empty(), seq![fault(loc, "missing"@, "Field required"@).about(v)]),
        Some(JsonV::String(s)) => (s, Seq::empty()),
        Some(m) => (Seq::empty(), seq![entry_fault(loc, m)]),
    }
}

/// The questions among several members that are in order, and what is wrong with the others.
pub open spec fn questions_in(m: Seq<(Seq<char>, JsonV)>) -> (
    Seq<(Seq<char>, QuestionV)>,
    Seq<FieldErrorV>,
)
    decreases m.len(),
{
    if m.len() == 0 {
        (Seq::empty(), Seq::empty())
    } else {
        let (qs, wrong) = questions_in(m.drop_last());
        let (id, v) = m.last();
        match asked(id, v) {
            Ok(q) => (qs.push((id, q)), wrong),
            Err(e) => (qs, wrong + e),
        }
    }
}

/// The questions of a request and what is wrong with them.
pub open spec fn questions_of(v: JsonV, o: Seq<(Seq<char>, JsonV)>) -> (
    Seq<(Seq<char>, QuestionV)>,
    Seq<FieldErrorV>,
) {
    let loc = body_path("questions"@);
    match json::member(o, "questions"@) {
        None => (Seq::empty(), seq![fault(loc, "missing"@, "Field required"@).about(v)]),
        Some(JsonV::Object(m)) => if m.len() == 0 {
            (
                Seq::empty(),
                seq![
                    fault(
                        loc,
                        "too_short"@,
                        "Dictionary should have at least 1 item after validation, not 0"@,
                    ).about(JsonV::Object(Seq::empty())).given(
                        least_length("Dictionary"@, 1, 0),
                    ),
                ],
            )
        } else {
            questions_in(m)
        },
        Some(q) => (
            Seq::empty(),
            seq![fault(loc, "dict_type"@, "Input should be a valid dictionary"@).about(q)],
        ),
    }
}

/// The request that a document holds, or all that is wrong with it: first with its state, then
/// with its model, then with its questions.
pub open spec fn request_of(v: JsonV) -> Result<RequestV, Seq<FieldErrorV>> {
    match v {
        JsonV::Object(o) => {
            let (state, a) = state_of(v, o);
            let (model, b) = model_of(v, o);
            let (questions, c) = questions_of(v, o);
            let all = a + b + c;
            if all.len() == 0 {
                Ok(RequestV { state, model, questions })
            } else {
                Err(all)
            }
        },
        _ => Err(seq![object_fault(seq![JsonV::String("body"@)], v)]),
    }
}

/// What is said of a body that is no JSON document.
pub open spec fn json_fault(column: nat, message: Seq<char>) -> FieldErrorV {
    fault(
        seq![JsonV::String("body"@), JsonV::Number(NumV::Nat(column))],
        "json_invalid"@,
        "JSON decode error"@,
    ).about(JsonV::Object(Seq::empty())).given(
        JsonV::Object(seq![("error"@, JsonV::String(message))]),
    )
}

/// The request that a body holds, or all that is wrong with it.
pub open spec fn request_in(parsed: Result<JsonV, (nat, Seq<char>)>) -> Result<
    RequestV,
    Seq<FieldErrorV>,
> {
    match parsed {
        Ok(v) => request_of(v),
        Err(e) => Err(seq![json_fault(e.0, e.1)]),
    }
}

/// Adds several errors at the end.
fn extend_errors(v: &mut Vec<FieldError>, more: Vec<FieldError>)
    ensures
        faults(final(v)@) == faults(old(v)@) + faults(more@),
{
    let ghost before = faults(v@);
    let ghost rest = faults(more@);
    let mut more = more;
    v.append(&mut more);
    proof {
        assert(faults(v@) =~= before + rest);
    }
}

fn read_questions(m: &Vec<(String, Json)>, errs: &mut Vec<FieldError>) -> (r: Vec<
    (String, Question),
>)
    ensures
        keyed(r@) == questions_in(json::members(m@)).0,
        faults(final(errs)@) == faults(old(errs)@) + questions_in(json::members(m@)).1,
{
    let ghost before = faults(errs@);
    let ghost all = json::members(m@);
    let mut r: Vec<(String, Question)> = Vec::new();
    let mut i: usize = 0;
    proof {
        assert(all.take(0) =~= Seq::empty());
        assert(keyed(r@) =~= questions_in(all.take(0)).0);
        assert(faults(errs@) =~= before + questions_in(all.take(0)).1);
    }
    while i < m.len()
        invariant
            i <= m@.len(),
            all == json::members(m@),
            keyed(r@) == questions_in(all.take(i as int)).0,
            faults(errs@) == before + questions_in(all.take(i as int)).1,
        decreases m@.len() - i,
    {
        proof {
            assert(all.take(i + 1).drop_last() =~= all.take(i as int));
            assert(all.take(i + 1).last() == all[i as int]);
        }
        match parse_question(m[i].0.as_str(), &m[i].1) {
            Ok(q) => {
                let ghost now = keyed(r@);
                let ghost value = (m@[i as int].0@, q@);
                r.push((m[i].0.clone(), q));
                proof {
                    assert(keyed(r@) =~= now.push(value));
                }
            },
            Err(e) => {
                extend_errors(errs, e);
                proof {
                    assert(faults(errs@) =~= before + questions_in(all.take(i + 1)).1);
                }
            },
        }
        i += 1;
    }
    proof {
        assert(all.take(i as int) =~= all);
    }
    r
}

/// The request that a document holds, or all that is wrong with it.
pub fn read_request(v: &Json) -> (r: Result<SystemOneRequest, Vec<FieldError>>)
    ensures
        match r {
            Ok(q) => request_of(v@) == Ok::<RequestV, Seq<FieldErrorV>>(q@),
            Err(e) => request_of(v@) == Err::<RequestV, Seq<FieldErrorV>>(faults(e@)),
        },
{
    match v {
        Json::Object(o) => {
            let ghost m = json::members(o@);
            let mut errs: Vec<FieldError> = Vec::new();
            proof {
                assert(faults(errs@) =~= Seq::empty());
            }
            let state = match get(o, "state") {
                None => {
                    push_error(&mut errs, missing_error(body_loc("state"), v));
                    Json::Null
                },
                Some(s) => {
                    if is_entry(s) {
                        s.copy()
                    } else {
                        push_error(&mut errs, entry_error(body_loc("state"), s));
                        Json::Null
                    }
                },
            };
            proof {
                assert(faults(errs@) =~= state_of(v@, m).1);
            }
            let model = match get(o, "model") {
                None => {
                    push_error(&mut errs, missing_error(body_loc("model"), v));
                    String::new()
                },
                Some(Json::String(s)) => s.clone(),
                Some(s) => {
                    push_error(&mut errs, entry_error(body_loc("model"), s));
                    String::new()
                },
            };
            proof {
                assert(faults(errs@) =~= state_of(v@, m).1 + model_of(v@, m).1);
                assert(model@ =~= model_of(v@, m).0);
            }
            let questions: Vec<(String, Question)> = match get(o, "questions") {
                None => {
                    push_error(&mut errs, missing_error(body_loc("questions"), v));
                    Vec::new()
                },
                Some(Json::Object(qs)) => {
                    if qs.len() == 0 {
                        let empty = Json::Object(Vec::new());
                        proof {
                            assert(empty@->Object_0 =~= Seq::empty());
                        }
                        let e = FieldError::new(
                            body_loc("questions"),
                            "too_short",
                            "Dictionary should have at least 1 item after validation, not 0".to_owned(),
                        );
                        push_error(
                            &mut errs,
                            e.input(&empty).ctx(min_length("Dictionary", 1, 0)),
                        );
                        Vec::new()
                    } else {
                        read_questions(qs, &mut errs)
                    }
                },
                Some(q) => {
                    let e = FieldError::new(
                        body_loc("questions"),
                        "dict_type",
                        "Input should be a valid dictionary".to_owned(),
                    );
                    push_error(&mut errs, e.input(q));
                    Vec::new()
                },
            };
            proof {
                assert(faults(errs@) =~= state_of(v@, m).1 + model_of(v@, m).1 + questions_of(
                    v@,
                    m,
                ).1);
                assert(keyed(questions@) =~= questions_of(v@, m).0);
            }
            if errs.len() == 0 {
                Ok(SystemOneRequest { state, model, questions })
            } else {
                Err(errs)
            }
        },
        _ => {
            let loc = path(&["body"]);
            proof {
                assert(json::values(loc@) =~= seq![JsonV::String("body"@)]);
            }
            Err(one_error(object_error(loc, v)))
        },
    }
}

/// Parses and validates a request body.
pub fn parse_system_one(body: &[u8]) -> (r: Result<SystemOneRequest, Vec<FieldError>>)
    ensures
        match r {
            Ok(q) => request_in(json::json_of(body@)) == Ok::<RequestV, Seq<FieldErrorV>>(q@)
                && distinct_ids(q@.questions),
            Err(e) => request_in(json::json_of(body@)) == Err::<RequestV, Seq<FieldErrorV>>(
                faults(e@),
            ),
        },
{
    match json::parse(body) {
        Ok(v) => {
            proof {
                lemma_ids_are_distinct(v@);
            }
            read_request(&v)
        },
        Err(e) => {
            let mut loc = path(&["body"]);
            add_value(&mut loc, natural(e.column as u64));
            let empty = Json::Object(Vec::new());
            let mut o: Vec<(String, Json)> = Vec::new();
            add_member(&mut o, "error", string(e.message.as_str()));
            proof {
                assert(json::values(loc@) =~= seq![
                    JsonV::String("body"@),
                    JsonV::Number(NumV::Nat(e.column as nat)),
                ]);
                assert(empty@->Object_0 =~= Seq::empty());
                assert(json::members(o@) =~= seq![("error"@, JsonV::String(e.message@))]);
            }
            let e = FieldError::new(loc, "json_invalid", "JSON decode error".to_owned());
            Err(one_error(e.input(&empty).ctx(Json::Object(o))))
        },
    }
}

// ---------------------------------------------------------------------------------------------
// What validation promises

/// Whether no two questions have the same id.
pub open spec fn distinct_ids(qs: Seq<(Seq<char>, QuestionV)>) -> bool {
    forall|i: int, j: int| 0 <= i < j < qs.len() ==> (#[trigger] qs[i]).0 != (#[trigger] qs[j]).0
}

proof fn lemma_questions_in_ids(m: Seq<(Seq<char>, JsonV)>)
    ensures
        questions_in(m).1.len() == 0 ==> {
            &&& questions_in(m).0.len() == m.len()
            &&& forall|i: int|
                0 <= i < m.len() ==> {
                    &&& (#[trigger] questions_in(m).0[i]).0 == m[i].0
                    &&& asked(m[i].0, m[i].1) == Ok::<QuestionV, Seq<FieldErrorV>>(
                        questions_in(m).0[i].1,
                    )
                }
        },
    decreases m.len(),
{
    if m.len() > 0 {
        let less = m.drop_last();
        lemma_questions_in_ids(less);
        lemma_rejected_for_a_reason(m.last().0, m.last().1);
        let (id, v) = m.last();
        if questions_in(m).1.len() == 0 {
            assert(asked(id, v) is Ok);
            assert forall|i: int| 0 <= i < m.len() implies {
                &&& (#[trigger] questions_in(m).0[i]).0 == m[i].0
                &&& asked(m[i].0, m[i].1) == Ok::<QuestionV, Seq<FieldErrorV>>(
                    questions_in(m).0[i].1,
                )
            } by {
                if i < less.len() {
                    assert(questions_in(m).0[i] == questions_in(less).0[i]);
                    assert(less[i] == m[i]);
                }
            }
        }
    }
}

/// A question that is rejected is rejected for a reason.
pub proof fn lemma_rejected_for_a_reason(id: Seq<char>, q: JsonV)
    ensures
        asked(id, q) matches Err(e) ==> e.len() > 0,
{
}

/// A request that is rejected is rejected for a reason.
pub proof fn lemma_request_rejected_for_a_reason(parsed: Result<JsonV, (nat, Seq<char>)>)
    ensures
        request_in(parsed) matches Err(e) ==> e.len() > 0,
{
}

/// An accepted question has as many options as its type may have.
pub proof fn lemma_accepted_questions_are_sized(id: Seq<char>, q: JsonV)
    ensures
        asked(id, q) matches Ok(a) ==> {
            &&& a.t == QType::Choice ==> a.crit is Choice && 1 <= a.crit.count()
                <= MAX_CHOICE_OPTIONS
            &&& a.t == QType::Score ==> a.crit is Score && 1 <= a.crit.count() <= MAX_SCORE_LEVELS
            &&& a.t == QType::Noul ==> a.crit is Noul
            &&& a.labels is None
        },
{
}

/// An accepted request answers what was asked: it has at least one question, and a question for
/// each member of `questions`, in the same order and under the same ids.
pub proof fn lemma_accepted_requests_keep_their_questions(v: JsonV)
    ensures
        request_of(v) matches Ok(r) ==> {
            &&& r.questions.len() >= 1
            &&& v matches JsonV::Object(o) && json::member(o, "questions"@) matches Some(
                JsonV::Object(m),
            ) && r.questions.len() == m.len() && forall|i: int|
                0 <= i < m.len() ==> {
                    &&& (#[trigger] r.questions[i]).0 == m[i].0
                    &&& asked(m[i].0, m[i].1) == Ok::<QuestionV, Seq<FieldErrorV>>(
                        r.questions[i].1,
                    )
                }
        },
{
    match v {
        JsonV::Object(o) => match json::member(o, "questions"@) {
            Some(JsonV::Object(m)) => {
                lemma_questions_in_ids(m);
            },
            _ => {},
        },
        _ => {},
    }
}

/// The ids of a request that was read from a document with distinct names are distinct.
proof fn lemma_ids_are_distinct(v: JsonV)
    requires
        json::tidy(v),
    ensures
        request_of(v) matches Ok(r) ==> distinct_ids(r.questions),
{
    lemma_accepted_requests_keep_their_questions(v);
    match (v, request_of(v)) {
        (JsonV::Object(o), Ok(r)) => {
            json::lemma_key_at(o, "questions"@);
            let k = json::key_at(o, "questions"@);
            let m = json::member(o, "questions"@)->0->Object_0;
            assert(json::tidy(o[k].1));
            assert forall|i: int, j: int| 0 <= i < j < r.questions.len() implies (
            #[trigger] r.questions[i]).0 != (#[trigger] r.questions[j]).0 by {
                assert(m[i].0 != m[j].0);
            }
        },
        _ => {},
    }
}

// ---------------------------------------------------------------------------------------------
// What is said of what is wrong

/// An accepted question is the one that was written: its type is the one it names, its criteria are
/// those under `criteria`, each something that can be read out, and its instructions those under
/// `instructions`.
pub proof fn lemma_accepted_questions_are_those_written(
    id: Seq<char>,
    o: Seq<(Seq<char>, JsonV)>,
    i: int,
)
    ensures
        asked(id, JsonV::Object(o)) matches Ok(q) ==> {
            let tag = json::member(o, "type"@);
            let crit = json::member(o, "criteria"@);
            &&& tag == Some(
                JsonV::String(
                    match q.t {
                        QType::Choice => "choice"@,
                        QType::Score => "score"@,
                        QType::Noul => "noul"@,
                    },
                ),
            )
            &&& q.t == QType::Choice ==> {
                &&& crit matches Some(JsonV::Object(m))
                &&& q.crit == CriteriaV::Choice(m)
                &&& 1 <= m.len() <= 255
                &&& 0 <= i < m.len() ==> !(m[i].1 is Number) && !(m[i].1 is Bool)
            }
            &&& q.t == QType::Score ==> {
                &&& crit matches Some(JsonV::Array(a))
                &&& q.crit == CriteriaV::Score(a)
                &&& 1 <= a.len() <= 10
                &&& 0 <= i < a.len() ==> a[i] is String || a[i] is Object || a[i] is Array
            }
            &&& q.t == QType::Noul ==> {
                &&& crit matches Some(JsonV::Object(m)) ==> q.crit == CriteriaV::Noul(
                    json::member(m, "false"@),
                    json::member(m, "true"@),
                ) && !(json::member(m, "true"@) matches Some(JsonV::Bool(_))) && !(json::member(
                    m,
                    "false"@,
                ) matches Some(JsonV::Bool(_)))
                &&& !(crit matches Some(JsonV::Object(_))) ==> q.crit == CriteriaV::Noul(None, None)
                    && (crit is None || crit == Some(JsonV::Null))
            }
            &&& match json::member(o, "instructions"@) {
                None => q.ins.len() == 0,
                Some(JsonV::Null) => q.ins.len() == 0,
                Some(JsonV::String(s)) => q.ins == s,
                Some(v) => v is Object || v is Array,
            }
        },
{
    if let Ok(q) = asked(id, JsonV::Object(o)) {
        match json::member(o, "criteria"@) {
            Some(JsonV::Object(m)) => {
                let loc = field_path(id, q.t, "criteria"@);
                if q.t == QType::Choice {
                    lemma_options_are_told_apart(loc, m, i);
                }
            },
            Some(JsonV::Array(a)) => {
                let loc = field_path(id, q.t, "criteria"@);
                if q.t == QType::Score {
                    lemma_levels_are_told_apart(loc, a, i);
                }
            },
            _ => {},
        }
    }
}

/// What is said of a choice's options is said of the option at fault: the place ends in its name and
/// the input is its value; and no option that is a number or a truth value is passed over.
pub proof fn lemma_options_are_told_apart(
    loc: Seq<JsonV>,
    m: Seq<(Seq<char>, JsonV)>,
    i: int,
)
    ensures
        ({
            let f = option_faults(loc, m);
            &&& 0 <= i < f.len() ==> exists|k: int| #[trigger] is_faulty_option(loc, m, f[i], k)
            &&& 0 <= i < m.len() && (m[i].1 is Number || m[i].1 is Bool) ==> exists|k: int|
                0 <= k < f.len() && is_faulty_option(loc, m, #[trigger] f[k], i)
        }),
    decreases m.len(),
{
    if m.len() > 0 {
        let less = m.drop_last();
        lemma_options_are_told_apart(loc, less, i);
        let f = option_faults(loc, less);
        let g = option_faults(loc, m);
        let last = m.len() - 1;
        if 0 <= i < f.len() {
            let k = choose|k: int| #[trigger] is_faulty_option(loc, less, f[i], k);
            assert(g[i] == f[i]);
            assert(less[k] == m[k]);
            assert(is_faulty_option(loc, m, g[i], k));
        } else if i == f.len() && i < g.len() {
            assert(is_faulty_option(loc, m, g[i], last));
        }
        if 0 <= i < m.len() && (m[i].1 is Number || m[i].1 is Bool) {
            if i < last {
                assert(less[i] == m[i]);
                let k = choose|k: int|
                    0 <= k < f.len() && is_faulty_option(loc, less, #[trigger] f[k], i);
                assert(g[k] == f[k]);
                assert(is_faulty_option(loc, m, g[k], i));
            } else {
                assert(is_faulty_option(loc, m, g[f.len() as int], i));
            }
        }
    }
}

/// Whether an error is about the option at `k`, which is a number or a truth value.
pub open spec fn is_faulty_option(
    loc: Seq<JsonV>,
    m: Seq<(Seq<char>, JsonV)>,
    e: FieldErrorV,
    k: int,
) -> bool {
    &&& 0 <= k < m.len()
    &&& m[k].1 is Number || m[k].1 is Bool
    &&& e.loc == loc.push(JsonV::String(m[k].0))
    &&& e.input == Some(m[k].1)
    &&& e.kind == "string_type"@
}

/// What is said of a score's levels is said of the level at fault: the place ends in its place and
/// the input is its value; and no level that cannot be read out is passed over.
pub proof fn lemma_levels_are_told_apart(loc: Seq<JsonV>, a: Seq<JsonV>, i: int)
    ensures
        ({
            let f = level_faults(loc, a);
            &&& 0 <= i < f.len() ==> exists|k: int| #[trigger] is_faulty_level(loc, a, f[i], k)
            &&& 0 <= i < a.len() && (a[i] is Number || a[i] is Bool || a[i] is Null) ==> exists|
                k: int,
            |
                0 <= k < f.len() && is_faulty_level(loc, a, #[trigger] f[k], i)
        }),
    decreases a.len(),
{
    if a.len() > 0 {
        let less = a.drop_last();
        lemma_levels_are_told_apart(loc, less, i);
        let f = level_faults(loc, less);
        let g = level_faults(loc, a);
        let last = a.len() - 1;
        if 0 <= i < f.len() {
            let k = choose|k: int| #[trigger] is_faulty_level(loc, less, f[i], k);
            assert(g[i] == f[i]);
            assert(less[k] == a[k]);
            assert(is_faulty_level(loc, a, g[i], k));
        } else if i == f.len() && i < g.len() {
            assert(is_faulty_level(loc, a, g[i], last));
        }
        if 0 <= i < a.len() && (a[i] is Number || a[i] is Bool || a[i] is Null) {
            if i < last {
                assert(less[i] == a[i]);
                let k = choose|k: int|
                    0 <= k < f.len() && is_faulty_level(loc, less, #[trigger] f[k], i);
                assert(g[k] == f[k]);
                assert(is_faulty_level(loc, a, g[k], i));
            } else {
                assert(is_faulty_level(loc, a, g[f.len() as int], i));
            }
        }
    }
}

/// Whether an error is about the level at `k`, which cannot be read out.
pub open spec fn is_faulty_level(loc: Seq<JsonV>, a: Seq<JsonV>, e: FieldErrorV, k: int) -> bool {
    &&& 0 <= k < a.len()
    &&& a[k] is Number || a[k] is Bool || a[k] is Null
    &&& e.loc == loc.push(JsonV::Number(NumV::Nat(k as nat)))
    &&& e.input == Some(a[k])
    &&& e.kind == "string_type"@
}

/// What is said of one side of a `noul` question is said of that side and of no other.
pub proof fn lemma_sides_are_told_apart(
    loc: Seq<JsonV>,
    m: Seq<(Seq<char>, JsonV)>,
    side: Seq<char>,
    v: JsonV,
)
    requires
        json::member(m, side) == Some(v),
    ensures
        v is Number || v is Bool ==> side_faults(loc, m, side).len() == 1 && {
            let e = side_faults(loc, m, side)[0];
            &&& e.loc == loc.push(JsonV::String(side))
            &&& e.input == Some(v)
            &&& e.kind == "string_type"@
        },
        v is Null || v is String || v is Object || v is Array ==> side_faults(loc, m, side).len()
            == 0,
{
}

/// A reply to a rejected request tells of every error, in order, its kind, its place, its message,
/// and its input and context where it has them, under their names.
pub proof fn lemma_rejections_tell_all(errors: Seq<FieldErrorV>, i: int)
    requires
        0 <= i < errors.len(),
    ensures
        ({
            &&& fault_body(errors) matches JsonV::Object(o)
            &&& json::member(o, "detail"@) matches Some(JsonV::Array(a))
            &&& a.len() == errors.len()
            &&& a[i] matches JsonV::Object(e)
            &&& json::member(e, "type"@) == Some(JsonV::String(errors[i].kind))
            &&& json::member(e, "loc"@) == Some(JsonV::Array(errors[i].loc))
            &&& json::member(e, "msg"@) == Some(JsonV::String(errors[i].msg))
            &&& json::member(e, "input"@) == errors[i].input
            &&& json::member(e, "ctx"@) == errors[i].ctx
        }),
{
    reveal_strlit("type");
    reveal_strlit("loc");
    reveal_strlit("msg");
    reveal_strlit("input");
    reveal_strlit("ctx");
    assert("type"@.len() == 4);
    assert("loc"@.len() == 3);
    assert("msg"@.len() == 3);
    assert("input"@.len() == 5);
    assert("ctx"@.len() == 3);
    assert("ctx"@[0] == 'c');
    assert("loc"@[0] == 'l');
    assert("msg"@[0] == 'm');
    if let JsonV::Object(o) = fault_body(errors) {
        json::lemma_member_is(o, 0);
    }
    let f = errors[i];
    if let JsonV::Object(e) = f.entry() {
        json::lemma_member_is(e, 0);
        json::lemma_member_is(e, 1);
        json::lemma_member_is(e, 2);
        if f.input is Some {
            json::lemma_member_is(e, 3);
            if f.ctx is Some {
                json::lemma_member_is(e, 4);
            } else {
                json::lemma_no_member(e, "ctx"@);
            }
        } else {
            json::lemma_no_member(e, "input"@);
            if f.ctx is Some {
                json::lemma_member_is(e, 3);
            } else {
                json::lemma_no_member(e, "ctx"@);
            }
        }
    }
}

/// Whether a question is rejected for one reason, of a kind and at a place, about `v`.
pub open spec fn only_error(
    r: Result<QuestionV, Seq<FieldErrorV>>,
    loc: Seq<JsonV>,
    v: JsonV,
    kind: Seq<char>,
) -> bool {
    &&& r matches Err(e)
    &&& e.len() == 1
    &&& e[0].loc == loc
    &&& e[0].input == Some(v)
    &&& e[0].kind == kind
}

/// A question without a type, or with one that is none, is rejected at its own place, and so is what
/// is no object.
pub proof fn lemma_types_are_needed(id: Seq<char>, q: JsonV)
    ensures
        ({
            let r = asked(id, q);
            let here = seq![
                JsonV::String("body"@),
                JsonV::String("questions"@),
                JsonV::String(id),
            ];
            &&& !(q is Object) ==> only_error(r, here, q, "model_attributes_type"@)
            &&& q matches JsonV::Object(o) ==> {
                &&& json::member(o, "type"@) is None ==> only_error(
                    r,
                    here,
                    q,
                    "union_tag_not_found"@,
                )
                &&& json::member(o, "type"@) matches Some(JsonV::String(s)) ==> s != "noul"@ && s
                    != "choice"@ && s != "score"@ ==> only_error(r, here, q, "union_tag_invalid"@)
            }
        }),
{
}

/// A request is read by its names: its state, its model and its questions are those under `state`,
/// `model` and `questions`, and without one of them it is rejected.
pub proof fn lemma_requests_are_read_by_name(o: Seq<(Seq<char>, JsonV)>)
    ensures
        request_of(JsonV::Object(o)) matches Ok(r) ==> {
            &&& json::member(o, "state"@) == Some(r.state)
            &&& r.state is String || r.state is Object || r.state is Array
            &&& json::member(o, "model"@) == Some(JsonV::String(r.model))
        },
        json::member(o, "state"@) is None || json::member(o, "model"@) is None || json::member(
            o,
            "questions"@,
        ) is None ==> request_of(JsonV::Object(o)) is Err,
{
}

/// A request says at the place of each member what is wrong with it: what is missing is said to be,
/// about the whole request, and what is of the wrong kind about itself.
pub proof fn lemma_members_are_told_apart(o: Seq<(Seq<char>, JsonV)>, v: JsonV)
    ensures
        json::member(o, "state"@) is None ==> is_missing(state_of(v, o).1, "state"@, v),
        json::member(o, "model"@) is None ==> is_missing(model_of(v, o).1, "model"@, v),
        json::member(o, "questions"@) is None ==> is_missing(questions_of(v, o).1, "questions"@, v),
        json::member(o, "model"@) matches Some(m) ==> !(m is String) ==> model_of(v, o).1.len() == 1
            && model_of(v, o).1[0].loc == seq![JsonV::String("body"@), JsonV::String("model"@)]
            && model_of(v, o).1[0].input == Some(m) && model_of(v, o).1[0].kind == "string_type"@,
        json::member(o, "questions"@) matches Some(m) ==> !(m is Object) ==> questions_of(
            v,
            o,
        ).1.len() == 1 && questions_of(v, o).1[0].input == Some(m) && questions_of(v, o).1[0].kind
            == "dict_type"@,
        json::member(o, "questions"@) == Some(JsonV::Object(Seq::empty())) ==> questions_of(
            v,
            o,
        ).1.len() == 1 && questions_of(v, o).1[0].kind == "too_short"@,
{
}

/// Whether it is said that a member of the request is missing, and nothing else.
pub open spec fn is_missing(errors: Seq<FieldErrorV>, name: Seq<char>, v: JsonV) -> bool {
    &&& errors.len() == 1
    &&& errors[0].loc == seq![JsonV::String("body"@), JsonV::String(name)]
    &&& errors[0].kind == "missing"@
    &&& errors[0].input == Some(v)
}

/// Limits on sizes are told by name with what was found.
pub proof fn lemma_sizes_are_told_by_name(what: Seq<char>, limit: nat, actual: nat)
    ensures
        ({
            &&& least_length(what, limit, actual) matches JsonV::Object(a)
            &&& greatest_length(what, limit, actual) matches JsonV::Object(b)
            &&& json::member(a, "field_type"@) == Some(JsonV::String(what))
            &&& json::member(a, "min_length"@) == Some(JsonV::Number(NumV::Nat(limit)))
            &&& json::member(a, "actual_length"@) == Some(JsonV::Number(NumV::Nat(actual)))
            &&& json::member(b, "field_type"@) == Some(JsonV::String(what))
            &&& json::member(b, "max_length"@) == Some(JsonV::Number(NumV::Nat(limit)))
            &&& json::member(b, "actual_length"@) == Some(JsonV::Number(NumV::Nat(actual)))
        }),
{
    reveal_strlit("field_type");
    reveal_strlit("min_length");
    reveal_strlit("max_length");
    reveal_strlit("actual_length");
    assert("field_type"@.len() == 10);
    assert("min_length"@.len() == 10);
    assert("max_length"@.len() == 10);
    assert("actual_length"@.len() == 13);
    assert("field_type"@[0] == 'f');
    assert("max_length"@[0] == 'm');
    assert("max_length"@[1] == 'a');
    assert("min_length"@[0] == 'm');
    assert("min_length"@[1] == 'i');
    if let JsonV::Object(a) = least_length(what, limit, actual) {
        json::lemma_member_is(a, 0);
        json::lemma_member_is(a, 1);
        json::lemma_member_is(a, 2);
    }
    if let JsonV::Object(b) = greatest_length(what, limit, actual) {
        json::lemma_member_is(b, 0);
        json::lemma_member_is(b, 1);
        json::lemma_member_is(b, 2);
    }
}

} // verus!
