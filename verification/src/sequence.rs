//! Typed questions and the token rows they are asked with.
//!
//! ```text
//! [CLS] "<t> question: <ins>" [SEP] [MASK] opt0 [MASK] opt1 ... [SEP] <state> [SEP]
//! ```

use vstd::prelude::*;
use vstd::string::*;

use crate::json::{self, add_member, add_value, get, write_json, Json, JsonV};
use crate::text::{self, decimal, replace, same, texts_push, trim};

verus! {

broadcast use crate::json::lemma_tree;

/// What a question asks for.
#[derive(Clone, Copy, PartialEq, Eq, Structural, Debug)]
pub enum QType {
    /// One of several named options.
    Choice,
    /// A level on a scale.
    Score,
    /// Whether a statement holds.
    Noul,
}

impl QType {
    /// The name a type has in requests.
    pub open spec fn label(self) -> Seq<char> {
        match self {
            QType::Choice => "choice"@,
            QType::Score => "score"@,
            QType::Noul => "noul"@,
        }
    }

    /// The type's place in per-type lists.
    pub open spec fn place(self) -> int {
        match self {
            QType::Choice => 0,
            QType::Score => 1,
            QType::Noul => 2,
        }
    }

    /// The name a type has in requests.
    pub fn name(self) -> (r: &'static str)
        ensures
            r@ == self.label(),
    {
        match self {
            QType::Choice => "choice",
            QType::Score => "score",
            QType::Noul => "noul",
        }
    }

    /// The type's place in per-type lists.
    pub fn index(self) -> (r: usize)
        ensures
            r == self.place(),
    {
        match self {
            QType::Choice => 0,
            QType::Score => 1,
            QType::Noul => 2,
        }
    }
}

/// What the options of a question mean.
#[derive(Debug, PartialEq, Eq)]
pub enum Criteria {
    /// `choice`: labels with their descriptions, in order. A description may be null or empty.
    Choice(Vec<(String, Json)>),
    /// `score`: one criterion per level.
    Score(Vec<Json>),
    /// `noul`: optional criteria for `false` and `true`.
    Noul { false_crit: Option<Json>, true_crit: Option<Json> },
}

/// The value of a question's criteria.
#[verifier::ext_equal]
pub enum CriteriaV {
    Choice(Seq<(Seq<char>, JsonV)>),
    Score(Seq<JsonV>),
    Noul(Option<JsonV>, Option<JsonV>),
}

/// One typed question.
#[derive(Debug, PartialEq, Eq)]
pub struct Question {
    pub t: QType,
    pub ins: String,
    pub crit: Criteria,
    /// `noul` only: display labels for `false` and `true`.
    pub labels: Option<(String, String)>,
}

/// The value of a question.
#[verifier::ext_equal]
pub struct QuestionV {
    pub t: QType,
    pub ins: Seq<char>,
    pub crit: CriteriaV,
    pub labels: Option<(Seq<char>, Seq<char>)>,
}

/// The value of a document that may be absent.
pub open spec fn maybe(j: Option<Json>) -> Option<JsonV> {
    match j {
        Some(v) => Some(v@),
        None => None,
    }
}

impl View for Criteria {
    type V = CriteriaV;

    open spec fn view(&self) -> CriteriaV {
        match self {
            Criteria::Choice(c) => CriteriaV::Choice(json::members(c@)),
            Criteria::Score(c) => CriteriaV::Score(json::values(c@)),
            Criteria::Noul { false_crit, true_crit } => CriteriaV::Noul(
                maybe(*false_crit),
                maybe(*true_crit),
            ),
        }
    }
}

impl View for Question {
    type V = QuestionV;

    open spec fn view(&self) -> QuestionV {
        QuestionV {
            t: self.t,
            ins: self.ins@,
            crit: self.crit@,
            labels: match self.labels {
                Some(l) => Some((l.0@, l.1@)),
                None => None,
            },
        }
    }
}

impl CriteriaV {
    /// How many options the criteria give.
    pub open spec fn count(self) -> nat {
        match self {
            CriteriaV::Choice(c) => c.len(),
            CriteriaV::Score(c) => c.len(),
            CriteriaV::Noul(_, _) => 2,
        }
    }
}

/// Why a document is no question.
#[derive(Debug, PartialEq, Eq)]
pub enum QuestionError {
    NotAnObject,
    /// The type given, when it is text.
    UnknownType(Option<String>),
    LabelsOnlyForNoul,
    ChoiceNotAnObject,
    ChoiceEmpty,
    ScoreNotAList,
    ScoreEmpty,
    BadLabels,
    LabelsNotAnObject,
}

/// The value of a question error.
#[verifier::ext_equal]
pub enum QuestionErrorV {
    NotAnObject,
    UnknownType(Option<Seq<char>>),
    LabelsOnlyForNoul,
    ChoiceNotAnObject,
    ChoiceEmpty,
    ScoreNotAList,
    ScoreEmpty,
    BadLabels,
    LabelsNotAnObject,
}

impl View for QuestionError {
    type V = QuestionErrorV;

    open spec fn view(&self) -> QuestionErrorV {
        match self {
            QuestionError::NotAnObject => QuestionErrorV::NotAnObject,
            QuestionError::UnknownType(s) => QuestionErrorV::UnknownType(
                match s {
                    Some(s) => Some(s@),
                    None => None,
                },
            ),
            QuestionError::LabelsOnlyForNoul => QuestionErrorV::LabelsOnlyForNoul,
            QuestionError::ChoiceNotAnObject => QuestionErrorV::ChoiceNotAnObject,
            QuestionError::ChoiceEmpty => QuestionErrorV::ChoiceEmpty,
            QuestionError::ScoreNotAList => QuestionErrorV::ScoreNotAList,
            QuestionError::ScoreEmpty => QuestionErrorV::ScoreEmpty,
            QuestionError::BadLabels => QuestionErrorV::BadLabels,
            QuestionError::LabelsNotAnObject => QuestionErrorV::LabelsNotAnObject,
        }
    }
}

/// What a text looks like quoted and escaped, as the standard library's `Debug` writes it.
pub uninterp spec fn debug_of(s: Seq<char>) -> Seq<char>;

/// The `Debug` text of a `str` in the standard library.
#[verifier::external_body]
pub(crate) fn debug_text(s: &str) -> (r: String)
    ensures
        r@ == debug_of(s@),
{
    format!("{s:?}")
}

impl QuestionErrorV {
    /// The error in words.
    pub open spec fn words(self) -> Seq<char> {
        match self {
            QuestionErrorV::NotAnObject => "question must be an object"@,
            QuestionErrorV::UnknownType(None) => "unknown question type None"@,
            QuestionErrorV::UnknownType(Some(s)) => "unknown question type Some("@ + debug_of(s)
                + ")"@,
            QuestionErrorV::LabelsOnlyForNoul => "labels is only supported for noul questions"@,
            QuestionErrorV::ChoiceNotAnObject => "choice crit must be an object"@,
            QuestionErrorV::ChoiceEmpty => "choice needs at least one option"@,
            QuestionErrorV::ScoreNotAList => "score crit must be a list"@,
            QuestionErrorV::ScoreEmpty => "score needs at least one level"@,
            QuestionErrorV::BadLabels =>
                "noul labels must map exactly 'false' and 'true' to distinct non-empty strings"@,
            QuestionErrorV::LabelsNotAnObject => "noul labels must be an object"@,
        }
    }
}

impl QuestionError {
    /// The error in words.
    pub fn message(&self) -> (r: String)
        ensures
            r@ == self@.words(),
    {
        match self {
            QuestionError::NotAnObject => "question must be an object".to_owned(),
            QuestionError::UnknownType(None) => "unknown question type None".to_owned(),
            QuestionError::UnknownType(Some(s)) => {
                let mut r = "unknown question type Some(".to_owned();
                r.append(debug_text(s.as_str()).as_str());
                r.append(")");
                r
            },
            QuestionError::LabelsOnlyForNoul =>
                "labels is only supported for noul questions".to_owned(),
            QuestionError::ChoiceNotAnObject => "choice crit must be an object".to_owned(),
            QuestionError::ChoiceEmpty => "choice needs at least one option".to_owned(),
            QuestionError::ScoreNotAList => "score crit must be a list".to_owned(),
            QuestionError::ScoreEmpty => "score needs at least one level".to_owned(),
            QuestionError::BadLabels =>
                "noul labels must map exactly 'false' and 'true' to distinct non-empty strings".to_owned(),
            QuestionError::LabelsNotAnObject => "noul labels must be an object".to_owned(),
        }
    }
}

// ---------------------------------------------------------------------------------------------
// Text of criteria and states

/// Whether a description is null or the empty text.
pub open spec fn blank(v: JsonV) -> bool {
    v == JsonV::Null || v == JsonV::String(Seq::empty())
}

/// A document as JSON text with a space after each comma and colon.
pub open spec fn spaced_text(v: JsonV) -> Seq<char> {
    json::written(v, ", "@, ": "@)
}

/// A criterion or a state as text: a string as it is, anything else as spaced JSON.
pub open spec fn criterion_text(v: JsonV) -> Seq<char> {
    match v {
        JsonV::String(s) => s,
        _ => spaced_text(v),
    }
}

/// Instructions as text: like a criterion, but for the constants, which read as words.
pub open spec fn instruction_text(v: JsonV) -> Seq<char> {
    match v {
        JsonV::String(s) => s,
        JsonV::Bool(b) => if b {
            "True"@
        } else {
            "False"@
        },
        JsonV::Null => "None"@,
        _ => spaced_text(v),
    }
}

/// Whether a description is null or the empty text.
pub fn is_blank(v: &Json) -> (r: bool)
    ensures
        r == blank(v@),
{
    match v {
        Json::Null => true,
        Json::String(s) => {
            let r = s.as_str().unicode_len() == 0;
            proof {
                if r {
                    assert(s@ =~= Seq::empty());
                }
            }
            r
        },
        _ => false,
    }
}

/// A document as JSON text with a space after each comma and colon, characters beyond ASCII as
/// they are.
pub fn python_json(v: &Json) -> (r: String)
    ensures
        r@ == spaced_text(v@),
{
    let mut out = String::new();
    write_json(v, ", ", ": ", &mut out);
    proof {
        assert(out@ =~= spaced_text(v@));
    }
    out
}

/// A criterion as text: a string as it is, anything else as spaced JSON.
pub fn render_criterion(v: &Json) -> (r: String)
    ensures
        r@ == criterion_text(v@),
{
    match v {
        Json::String(s) => s.clone(),
        _ => python_json(v),
    }
}

/// A state as text: a string as it is, anything else as spaced JSON.
pub fn serialize_state(v: &Json) -> (r: String)
    ensures
        r@ == criterion_text(v@),
{
    render_criterion(v)
}

fn python_str(v: &Json) -> (r: String)
    ensures
        r@ == instruction_text(v@),
{
    match v {
        Json::String(s) => s.clone(),
        Json::Bool(b) => {
            if *b {
                "True".to_owned()
            } else {
                "False".to_owned()
            }
        },
        Json::Null => "None".to_owned(),
        _ => python_json(v),
    }
}

// ---------------------------------------------------------------------------------------------
// Questions from documents

/// The member named `short`, or else the one named `long`.
pub open spec fn either(
    o: Seq<(Seq<char>, JsonV)>,
    short: Seq<char>,
    long: Seq<char>,
) -> Option<JsonV> {
    match json::member(o, short) {
        Some(v) => Some(v),
        None => json::member(o, long),
    }
}

/// The type a text names.
pub open spec fn type_named(s: Seq<char>) -> Option<QType> {
    if s == "choice"@ {
        Some(QType::Choice)
    } else if s == "score"@ {
        Some(QType::Score)
    } else if s == "noul"@ {
        Some(QType::Noul)
    } else {
        None
    }
}

/// The criteria of a question of type `t`.
pub open spec fn criteria_of(t: QType, crit: JsonV) -> Result<
    CriteriaV,
    QuestionErrorV,
> {
    match t {
        QType::Choice => match crit {
            JsonV::Object(m) => if m.len() == 0 {
                Err(QuestionErrorV::ChoiceEmpty)
            } else {
                Ok(CriteriaV::Choice(m))
            },
            _ => Err(QuestionErrorV::ChoiceNotAnObject),
        },
        QType::Score => match crit {
            JsonV::Array(a) => if a.len() == 0 {
                Err(QuestionErrorV::ScoreEmpty)
            } else {
                Ok(CriteriaV::Score(a))
            },
            _ => Err(QuestionErrorV::ScoreNotAList),
        },
        QType::Noul => match crit {
            JsonV::Object(m) => Ok(
                CriteriaV::Noul(
                    json::member(m, "false"@),
                    json::member(m, "true"@),
                ),
            ),
            _ => Ok(CriteriaV::Noul(None, None)),
        },
    }
}

/// The label a member of `labels` gives: its text without the white space around it.
pub open spec fn label_of(
    m: Seq<(Seq<char>, JsonV)>,
    key: Seq<char>,
) -> Option<Seq<char>> {
    match json::member(m, key) {
        Some(JsonV::String(s)) => Some(text::trimmed(s)),
        _ => None,
    }
}

/// The display labels of a `noul` question.
pub open spec fn labels_of(v: Option<JsonV>) -> Result<
    Option<(Seq<char>, Seq<char>)>,
    QuestionErrorV,
> {
    match v {
        None => Ok(None),
        Some(JsonV::Null) => Ok(None),
        Some(JsonV::Object(m)) => match (label_of(m, "false"@), label_of(m, "true"@)) {
            (Some(f), Some(t)) => if m.len() == 2 && f.len() > 0 && t.len() > 0 && f != t {
                Ok(Some((f, t)))
            } else {
                Err(QuestionErrorV::BadLabels)
            },
            _ => Err(QuestionErrorV::BadLabels),
        },
        Some(_) => Err(QuestionErrorV::LabelsNotAnObject),
    }
}

/// The question a document holds, with short names (`t`, `ins`, `crit`) or long ones (`type`,
/// `instructions`, `criteria`).
pub open spec fn question_of(v: JsonV) -> Result<QuestionV, QuestionErrorV> {
    match v {
        JsonV::Object(o) => {
            let named = match either(o, "t"@, "type"@) {
                Some(JsonV::String(s)) => Some(s),
                _ => None,
            };
            let t = match named {
                Some(s) => type_named(s),
                None => None,
            };
            let ins = match either(o, "ins"@, "instructions"@) {
                Some(v) => instruction_text(v),
                None => Seq::empty(),
            };
            let crit = match either(o, "crit"@, "criteria"@) {
                Some(v) => v,
                None => JsonV::Null,
            };
            let labels = json::member(o, "labels"@);
            match t {
                None => Err(QuestionErrorV::UnknownType(named)),
                Some(t) => if t != QType::Noul && labels is Some {
                    Err(QuestionErrorV::LabelsOnlyForNoul)
                } else {
                    match criteria_of(t, crit) {
                        Err(e) => Err(e),
                        Ok(crit) => match labels_of(labels) {
                            Err(e) => Err(e),
                            Ok(labels) => Ok(QuestionV { t, ins, crit, labels }),
                        },
                    }
                },
            }
        },
        _ => Err(QuestionErrorV::NotAnObject),
    }
}

fn get_either<'a>(o: &'a Vec<(String, Json)>, short: &str, long: &str) -> (r: Option<&'a Json>)
    ensures
        match r {
            Some(v) => either(json::members(o@), short@, long@) == Some(v@),
            None => either(json::members(o@), short@, long@) is None,
        },
{
    match get(o, short) {
        Some(v) => Some(v),
        None => get(o, long),
    }
}

/// The type a text names.
pub fn read_type(s: &str) -> (r: Option<QType>)
    ensures
        r == type_named(s@),
{
    if same(s, "choice") {
        Some(QType::Choice)
    } else if same(s, "score") {
        Some(QType::Score)
    } else if same(s, "noul") {
        Some(QType::Noul)
    } else {
        None
    }
}

/// The members of an object, copied.
pub fn copy_members(o: &Vec<(String, Json)>) -> (r: Vec<(String, Json)>)
    ensures
        json::members(r@) == json::members(o@),
{
    let mut r: Vec<(String, Json)> = Vec::new();
    let ghost all = json::members(o@);
    proof {
        assert(all.take(0) =~= json::members(r@));
    }
    let mut i: usize = 0;
    while i < o.len()
        invariant
            i <= o@.len(),
            all == json::members(o@),
            json::members(r@) == all.take(i as int),
        decreases o@.len() - i,
    {
        let v = o[i].1.copy();
        add_member(&mut r, o[i].0.as_str(), v);
        proof {
            assert(all.take(i + 1) =~= all.take(i as int).push(all[i as int]));
        }
        i += 1;
    }
    proof {
        assert(all.take(i as int) =~= all);
    }
    r
}

/// The values of a list, copied.
pub fn copy_values(a: &Vec<Json>) -> (r: Vec<Json>)
    ensures
        json::values(r@) == json::values(a@),
{
    let mut r: Vec<Json> = Vec::new();
    let ghost all = json::values(a@);
    proof {
        assert(all.take(0) =~= json::values(r@));
    }
    let mut i: usize = 0;
    while i < a.len()
        invariant
            i <= a@.len(),
            all == json::values(a@),
            json::values(r@) == all.take(i as int),
        decreases a@.len() - i,
    {
        let v = a[i].copy();
        add_value(&mut r, v);
        proof {
            assert(all.take(i + 1) =~= all.take(i as int).push(all[i as int]));
        }
        i += 1;
    }
    proof {
        assert(all.take(i as int) =~= all);
    }
    r
}

/// A document that may be absent, copied.
pub fn copy_maybe(v: Option<&Json>) -> (r: Option<Json>)
    ensures
        match v {
            Some(v) => maybe(r) == Some(v@),
            None => r is None,
        },
{
    match v {
        Some(v) => Some(v.copy()),
        None => None,
    }
}

fn read_criteria(t: QType, crit: Option<&Json>) -> (r: Result<Criteria, QuestionError>)
    ensures
        ({
            let v = match crit {
                Some(v) => v@,
                None => JsonV::Null,
            };
            match r {
                Ok(c) => criteria_of(t, v) == Ok::<CriteriaV, QuestionErrorV>(c@),
                Err(e) => criteria_of(t, v) == Err::<CriteriaV, QuestionErrorV>(e@),
            }
        }),
{
    match t {
        QType::Choice => match crit {
            Some(Json::Object(m)) => {
                if m.len() == 0 {
                    Err(QuestionError::ChoiceEmpty)
                } else {
                    Ok(Criteria::Choice(copy_members(m)))
                }
            },
            _ => Err(QuestionError::ChoiceNotAnObject),
        },
        QType::Score => match crit {
            Some(Json::Array(a)) => {
                if a.len() == 0 {
                    Err(QuestionError::ScoreEmpty)
                } else {
                    Ok(Criteria::Score(copy_values(a)))
                }
            },
            _ => Err(QuestionError::ScoreNotAList),
        },
        QType::Noul => match crit {
            Some(Json::Object(m)) => {
                let false_crit = copy_maybe(get(m, "false"));
                let true_crit = copy_maybe(get(m, "true"));
                Ok(Criteria::Noul { false_crit, true_crit })
            },
            _ => Ok(Criteria::Noul { false_crit: None, true_crit: None }),
        },
    }
}

fn read_label(m: &Vec<(String, Json)>, key: &str) -> (r: Option<String>)
    ensures
        match r {
            Some(s) => label_of(json::members(m@), key@) == Some(s@),
            None => label_of(json::members(m@), key@) is None,
        },
{
    match get(m, key) {
        Some(Json::String(s)) => Some(trim(s.as_str())),
        _ => None,
    }
}

fn read_labels(v: Option<&Json>) -> (r: Result<Option<(String, String)>, QuestionError>)
    ensures
        ({
            let w = match v {
                Some(v) => Some(v@),
                None => None,
            };
            match r {
                Ok(Some(l)) => labels_of(w) == Ok::<
                    Option<(Seq<char>, Seq<char>)>,
                    QuestionErrorV,
                >(Some((l.0@, l.1@))),
                Ok(None) => labels_of(w) == Ok::<Option<(Seq<char>, Seq<char>)>, QuestionErrorV>(
                    None,
                ),
                Err(e) => labels_of(w) == Err::<Option<(Seq<char>, Seq<char>)>, QuestionErrorV>(
                    e@,
                ),
            }
        }),
{
    match v {
        None => Ok(None),
        Some(Json::Null) => Ok(None),
        Some(Json::Object(m)) => {
            let f = read_label(m, "false");
            let t = read_label(m, "true");
            match (f, t) {
                (Some(f), Some(t)) => {
                    if m.len() == 2 && f.as_str().unicode_len() > 0 && t.as_str().unicode_len() > 0
                        && !same(f.as_str(), t.as_str()) {
                        Ok(Some((f, t)))
                    } else {
                        Err(QuestionError::BadLabels)
                    }
                },
                _ => Err(QuestionError::BadLabels),
            }
        },
        Some(_) => Err(QuestionError::LabelsNotAnObject),
    }
}

impl Question {
    /// The question a document holds, with short names (`t`, `ins`, `crit`) or long ones (`type`,
    /// `instructions`, `criteria`).
    pub fn from_json(v: &Json) -> (r: Result<Question, QuestionError>)
        ensures
            match r {
                Ok(q) => question_of(v@) == Ok::<QuestionV, QuestionErrorV>(q@),
                Err(e) => question_of(v@) == Err::<QuestionV, QuestionErrorV>(e@),
            },
    {
        match v {
            Json::Object(o) => {
                let t = match get_either(o, "t", "type") {
                    Some(Json::String(s)) => {
                        match read_type(s.as_str()) {
                            Some(t) => t,
                            None => return Err(QuestionError::UnknownType(Some(s.clone()))),
                        }
                    },
                    _ => return Err(QuestionError::UnknownType(None)),
                };
                let ins = match get_either(o, "ins", "instructions") {
                    Some(v) => python_str(v),
                    None => String::new(),
                };
                let crit = get_either(o, "crit", "criteria");
                let labels = get(o, "labels");
                if t != QType::Noul && labels.is_some() {
                    return Err(QuestionError::LabelsOnlyForNoul);
                }
                let crit = match read_criteria(t, crit) {
                    Ok(c) => c,
                    Err(e) => return Err(e),
                };
                let labels = match read_labels(labels) {
                    Ok(l) => l,
                    Err(e) => return Err(e),
                };
                Ok(Question { t, ins, crit, labels })
            },
            _ => Err(QuestionError::NotAnObject),
        }
    }
}

impl Question {
    /// A question equal to this one.
    pub fn copy(&self) -> (r: Question)
        ensures
            r@ == self@,
    {
        let crit = match &self.crit {
            Criteria::Choice(c) => Criteria::Choice(copy_members(c)),
            Criteria::Score(c) => Criteria::Score(copy_values(c)),
            Criteria::Noul { false_crit, true_crit } => Criteria::Noul {
                false_crit: copy_maybe(false_crit.as_ref()),
                true_crit: copy_maybe(true_crit.as_ref()),
            },
        };
        let labels = match &self.labels {
            Some(l) => Some((l.0.clone(), l.1.clone())),
            None => None,
        };
        Question { t: self.t, ins: self.ins.clone(), crit, labels }
    }
}

// ---------------------------------------------------------------------------------------------
// Options

impl QuestionV {
    /// The names of the options, as answers give them.
    pub open spec fn keys(self) -> Seq<Seq<char>> {
        match self.crit {
            CriteriaV::Choice(c) => Seq::new(c.len(), |i: int| c[i].0),
            CriteriaV::Score(c) => Seq::new(c.len(), |i: int| text::dec(i as nat)),
            CriteriaV::Noul(_, _) => seq!["false"@, "true"@],
        }
    }

    /// The texts of the options, as the model reads them.
    pub open spec fn rendered(self) -> Seq<Seq<char>> {
        match self.crit {
            CriteriaV::Choice(c) => Seq::new(c.len(), |i: int| choice_text(c[i])),
            CriteriaV::Score(c) => Seq::new(c.len(), |i: int| level_text(i as nat, c[i])),
            CriteriaV::Noul(f, t) => {
                let labels = match self.labels {
                    Some(l) => l,
                    None => ("false"@, "true"@),
                };
                seq![
                    side_text(labels.0, f, "no, the statement does not hold"@),
                    side_text(labels.1, t, "yes, the statement holds"@),
                ]
            },
        }
    }
}

/// An option of a choice: its label, and its description unless that is blank.
pub open spec fn choice_text(option: (Seq<char>, JsonV)) -> Seq<char> {
    if blank(option.1) {
        option.0
    } else {
        option.0 + ": "@ + criterion_text(option.1)
    }
}

/// A level of a score.
pub open spec fn level_text(i: nat, v: JsonV) -> Seq<char> {
    "level "@ + text::dec(i) + ": "@ + criterion_text(v)
}

/// One side of a `noul`: its label, and its criterion or else the usual one.
pub open spec fn side_text(label: Seq<char>, crit: Option<JsonV>, usual: Seq<char>) -> Seq<char> {
    label + ": "@ + match crit {
        Some(v) => if blank(v) {
            usual
        } else {
            criterion_text(v)
        },
        None => usual,
    }
}

fn render_side(label: &str, crit: &Option<Json>, usual: &str) -> (r: String)
    ensures
        r@ == side_text(label@, maybe(*crit), usual@),
{
    let mut r = label.to_owned();
    r.append(": ");
    match crit {
        Some(v) => {
            if is_blank(v) {
                r.append(usual);
            } else {
                r.append(render_criterion(v).as_str());
            }
        },
        None => r.append(usual),
    }
    r
}

impl Question {
    /// The names of the options, as answers give them.
    pub fn option_keys(&self) -> (r: Vec<String>)
        ensures
            text::texts(r@) == self@.keys(),
    {
        let ghost all = self@.keys();
        let mut r: Vec<String> = Vec::new();
        proof {
            assert(all.take(0) =~= text::texts(r@));
        }
        match &self.crit {
            Criteria::Choice(c) => {
                let mut i: usize = 0;
                while i < c.len()
                    invariant
                        i <= c@.len(),
                        self.crit == Criteria::Choice(*c),
                        all == self@.keys(),
                        text::texts(r@) == all.take(i as int),
                    decreases c@.len() - i,
                {
                    texts_push(&mut r, c[i].0.clone());
                    proof {
                        assert(all.take(i + 1) =~= all.take(i as int).push(all[i as int]));
                    }
                    i += 1;
                }
                proof {
                    assert(all.take(i as int) =~= all);
                }
            },
            Criteria::Score(c) => {
                let mut i: usize = 0;
                while i < c.len()
                    invariant
                        i <= c@.len(),
                        self.crit == Criteria::Score(*c),
                        all == self@.keys(),
                        text::texts(r@) == all.take(i as int),
                    decreases c@.len() - i,
                {
                    texts_push(&mut r, decimal(i as u64));
                    proof {
                        assert(all.take(i + 1) =~= all.take(i as int).push(all[i as int]));
                    }
                    i += 1;
                }
                proof {
                    assert(all.take(i as int) =~= all);
                }
            },
            Criteria::Noul { .. } => {
                texts_push(&mut r, "false".to_owned());
                texts_push(&mut r, "true".to_owned());
                proof {
                    assert(text::texts(r@) =~= all);
                }
            },
        }
        r
    }

    /// The texts of the options, as the model reads them.
    pub fn render_options(&self) -> (r: Vec<String>)
        ensures
            text::texts(r@) == self@.rendered(),
    {
        let ghost all = self@.rendered();
        let mut r: Vec<String> = Vec::new();
        proof {
            assert(all.take(0) =~= text::texts(r@));
        }
        match &self.crit {
            Criteria::Choice(c) => {
                let mut i: usize = 0;
                while i < c.len()
                    invariant
                        i <= c@.len(),
                        self.crit == Criteria::Choice(*c),
                        all == self@.rendered(),
                        text::texts(r@) == all.take(i as int),
                    decreases c@.len() - i,
                {
                    let mut t = c[i].0.clone();
                    if !is_blank(&c[i].1) {
                        t.append(": ");
                        t.append(render_criterion(&c[i].1).as_str());
                    }
                    texts_push(&mut r, t);
                    proof {
                        assert(all.take(i + 1) =~= all.take(i as int).push(all[i as int]));
                    }
                    i += 1;
                }
                proof {
                    assert(all.take(i as int) =~= all);
                }
            },
            Criteria::Score(c) => {
                let mut i: usize = 0;
                while i < c.len()
                    invariant
                        i <= c@.len(),
                        self.crit == Criteria::Score(*c),
                        all == self@.rendered(),
                        text::texts(r@) == all.take(i as int),
                    decreases c@.len() - i,
                {
                    let mut t = "level ".to_owned();
                    t.append(decimal(i as u64).as_str());
                    t.append(": ");
                    t.append(render_criterion(&c[i]).as_str());
                    texts_push(&mut r, t);
                    proof {
                        assert(all.take(i + 1) =~= all.take(i as int).push(all[i as int]));
                    }
                    i += 1;
                }
                proof {
                    assert(all.take(i as int) =~= all);
                }
            },
            Criteria::Noul { false_crit, true_crit } => {
                let (f, t) = match &self.labels {
                    Some(l) => (l.0.clone(), l.1.clone()),
                    None => ("false".to_owned(), "true".to_owned()),
                };
                texts_push(
                    &mut r,
                    render_side(f.as_str(), false_crit, "no, the statement does not hold"),
                );
                texts_push(
                    &mut r,
                    render_side(t.as_str(), true_crit, "yes, the statement holds"),
                );
                proof {
                    assert(text::texts(r@) =~= all);
                }
            },
        }
        r
    }
}

/// Whether a text ends with another.
pub open spec fn ends(s: Seq<char>, e: Seq<char>) -> bool {
    e.len() <= s.len() && s.skip(s.len() - e.len()) == e
}

/// An option of a choice reads as its name, with its description behind it unless there is none;
/// a level of a score as its number, with its meaning behind it. Names come in the order of the
/// criteria.
pub proof fn lemma_options_read_as_they_are_named(q: QuestionV, i: int, d: Seq<char>)
    requires
        0 <= i < q.keys().len(),
    ensures
        q.rendered().len() == q.keys().len(),
        q.crit matches CriteriaV::Choice(c) ==> {
            &&& q.keys().len() == c.len()
            &&& q.keys()[i] == c[i].0
            &&& c[i].1 == JsonV::Null ==> q.rendered()[i] == q.keys()[i]
            &&& c[i].1 == JsonV::String(d) && d.len() == 0 ==> q.rendered()[i] == q.keys()[i]
            &&& c[i].1 == JsonV::String(d) && d.len() > 0 ==> q.rendered()[i] == q.keys()[i]
                + ": "@ + d
            &&& !(c[i].1 is Null) && !(c[i].1 is String) ==> q.rendered()[i] == q.keys()[i] + ": "@
                + json::written(c[i].1, ", "@, ": "@)
        },
        q.crit matches CriteriaV::Score(c) ==> {
            &&& q.keys().len() == c.len()
            &&& q.keys()[i] == text::dec(i as nat)
            &&& c[i] == JsonV::String(d) ==> q.rendered()[i] == "level "@ + q.keys()[i] + ": "@ + d
            &&& !(c[i] is String) ==> q.rendered()[i] == "level "@ + q.keys()[i] + ": "@
                + json::written(c[i], ", "@, ": "@)
        },
{
    if d.len() == 0 {
        assert(d =~= Seq::empty());
    }
}

/// The sides of a `noul` are `false` and `true`, in this order. Each reads as its own label, or
/// its name when there are no labels, with its own criterion behind it: what the question says of
/// that side, or else whether the statement holds.
pub proof fn lemma_sides_read_their_own_criterion(q: QuestionV, i: int, d: Seq<char>)
    requires
        q.crit is Noul,
        0 <= i < q.keys().len(),
    ensures
        q.keys().len() == 2,
        q.rendered().len() == 2,
        q.keys()[0] == "false"@,
        q.keys()[1] == "true"@,
        ({
            let crit = if q.keys()[i] == "true"@ {
                q.crit->Noul_1
            } else {
                q.crit->Noul_0
            };
            let label = match q.labels {
                Some(l) => if q.keys()[i] == "true"@ {
                    l.1
                } else {
                    l.0
                },
                None => q.keys()[i],
            };
            let r = q.rendered()[i];
            &&& text::begins(r, label + ": "@)
            &&& crit == Some(JsonV::String(d)) && d.len() > 0 ==> r == label + ": "@ + d && ends(
                r,
                d,
            )
            &&& crit is None || crit == Some(JsonV::Null) ==> r == label + ": "@ + if q.keys()[i]
                == "true"@ {
                "yes, the statement holds"@
            } else {
                "no, the statement does not hold"@
            }
            &&& crit is Some && !(crit->0 is String) && !(crit->0 is Null) ==> r == label + ": "@
                + json::written(crit->0, ", "@, ": "@)
        }),
{
    reveal_strlit("false");
    reveal_strlit("true");
    assert("false"@.len() == 5 && "true"@.len() == 4);
    assert(q.keys()[0] == "false"@ && q.keys()[1] == "true"@);
    let label = match q.labels {
        Some(l) => if q.keys()[i] == "true"@ {
            l.1
        } else {
            l.0
        },
        None => q.keys()[i],
    };
    let r = q.rendered()[i];
    let start = label + ": "@;
    assert(r.take(start.len() as int) =~= start);
    if r == start + d {
        assert(r.skip(r.len() - d.len()) =~= d);
    }
}

/// A `noul` question that is read from a document keeps what the document says of each side: the
/// text of the option named `true` ends with the member `true` of the criteria, that of `false` with
/// the member `false`; and with labels each begins with its own.
pub proof fn lemma_read_sides_keep_their_criteria(
    o: Seq<(Seq<char>, JsonV)>,
    m: Seq<(Seq<char>, JsonV)>,
    i: int,
    d: Seq<char>,
)
    requires
        question_of(JsonV::Object(o)) matches Ok(q) && q.t == QType::Noul,
        json::member(o, "crit"@) == Some(JsonV::Object(m)) || (json::member(o, "crit"@) is None
            && json::member(o, "criteria"@) == Some(JsonV::Object(m))),
        0 <= i < 2,
    ensures
        ({
            let q = question_of(JsonV::Object(o))->Ok_0;
            let key = q.keys()[i];
            &&& q.keys() == seq!["false"@, "true"@]
            &&& json::member(m, key) == Some(JsonV::String(d)) && d.len() > 0 ==> ends(
                q.rendered()[i],
                d,
            )
            &&& json::member(o, "labels"@) is None ==> text::begins(q.rendered()[i], key + ": "@)
            &&& json::member(o, "labels"@) matches Some(JsonV::Object(l)) ==> {
                &&& json::member(l, key) matches Some(JsonV::String(t))
                &&& text::begins(q.rendered()[i], text::trimmed(t) + ": "@)
            }
        }),
{
    let q = question_of(JsonV::Object(o))->Ok_0;
    lemma_sides_read_their_own_criterion(q, i, d);
    reveal_strlit("false");
    reveal_strlit("true");
    assert("false"@.len() == 5 && "true"@.len() == 4);
    assert(q.keys() =~= seq!["false"@, "true"@]);
}

/// A document is a question of the type that it names, with the instructions and the criteria that
/// it gives, under short names or long ones; a document that names no type, a choice whose criteria
/// are no object or an empty one, and a score whose criteria are no list or an empty one are none.
pub proof fn lemma_questions_are_read_as_they_are_written(o: Seq<(Seq<char>, JsonV)>)
    ensures
        ({
            let named = if json::member(o, "t"@) is Some {
                json::member(o, "t"@)
            } else {
                json::member(o, "type"@)
            };
            let ins = if json::member(o, "ins"@) is Some {
                json::member(o, "ins"@)
            } else {
                json::member(o, "instructions"@)
            };
            let crit = if json::member(o, "crit"@) is Some {
                json::member(o, "crit"@)
            } else {
                json::member(o, "criteria"@)
            };
            let labels = json::member(o, "labels"@);
            let r = question_of(JsonV::Object(o));
            let choice = named == Some(JsonV::String("choice"@));
            let score = named == Some(JsonV::String("score"@));
            let noul = named == Some(JsonV::String("noul"@));
            &&& r matches Ok(q) ==> {
                &&& choice || score || noul
                &&& choice ==> q.t == QType::Choice && crit == Some(
                    JsonV::Object(q.crit->Choice_0),
                ) && q.crit is Choice && q.crit->Choice_0.len() > 0
                &&& score ==> q.t == QType::Score && crit == Some(JsonV::Array(q.crit->Score_0))
                    && q.crit is Score && q.crit->Score_0.len() > 0
                &&& noul ==> q.t == QType::Noul && q.crit is Noul
                &&& ins is None ==> q.ins.len() == 0
                &&& ins matches Some(JsonV::String(s)) ==> q.ins == s
                &&& labels is None ==> q.labels is None
                &&& !noul ==> labels is None
            }
            &&& choice && labels is None && (crit matches Some(JsonV::Object(m)) && m.len() > 0)
                ==> r is Ok
            &&& score && labels is None && (crit matches Some(JsonV::Array(a)) && a.len() > 0)
                ==> r is Ok
            &&& noul && labels is None ==> r is Ok
        }),
{
    reveal_strlit("choice");
    reveal_strlit("score");
    reveal_strlit("noul");
    assert("choice"@.len() == 6 && "score"@.len() == 5 && "noul"@.len() == 4);
}

/// A question has as many option names as option texts.
pub proof fn lemma_option_counts(q: QuestionV)
    ensures
        q.keys().len() == q.crit.count(),
        q.rendered().len() == q.crit.count(),
{
}

/// A question read from a document has at least one option.
pub proof fn lemma_read_question_has_options(v: JsonV)
    ensures
        question_of(v) matches Ok(q) ==> q.crit.count() >= 1,
{
}

// ---------------------------------------------------------------------------------------------
// Tokens

/// A tokenizer of the `tokenizers` crate.
#[verifier::external_type_specification]
#[verifier::external_body]
pub struct ExTokenizer(tokenizers::Tokenizer);

/// Whether encoding a text with a tokenizer, without special tokens, can come out this way: as
/// token ids or as an error message. A tokenizer with dropout has several outcomes for one text.
pub uninterp spec fn outcome_of(
    tok: tokenizers::Tokenizer,
    text: Seq<char>,
    outcome: Result<Seq<u32>, Seq<char>>,
) -> bool;

/// How a tokenizer truncates: the length and the stride.
pub uninterp spec fn truncation_of(tok: tokenizers::Tokenizer) -> Option<(usize, usize)>;

/// How a tokenizer pads: the fixed length, if there is one, and the multiple, if there is one.
pub uninterp spec fn padding_of(tok: tokenizers::Tokenizer) -> Option<
    (Option<usize>, Option<usize>),
>;

/// A tokenizer that cuts no text, and is else the same.
pub uninterp spec fn uncut_of(tok: tokenizers::Tokenizer) -> tokenizers::Tokenizer;

/// The id a tokenizer's vocabulary gives a token.
pub uninterp spec fn id_of(tok: tokenizers::Tokenizer, token: Seq<char>) -> Option<u32>;

/// The largest length that padding may ask for.
pub open spec fn is_length(n: Option<usize>) -> bool {
    n matches Some(n) ==> n <= isize::MAX as int / 64
}

/// Whether a tokenizer cannot cut a text: the stride is not below the length.
pub open spec fn cannot_cut(tok: tokenizers::Tokenizer) -> bool {
    truncation_of(tok) matches Some((length, stride)) && 0 < length <= stride
}

/// Whether a tokenizer cannot pad a text: it asks for a length that there cannot be.
pub open spec fn cannot_pad(tok: tokenizers::Tokenizer) -> bool {
    padding_of(tok) matches Some((fixed, multiple)) && !(is_length(fixed) && is_length(multiple))
}

/// Whether a tokenizer can be given any text.
pub open spec fn usable(tok: tokenizers::Tokenizer) -> bool {
    !cannot_cut(tok) && !cannot_pad(tok)
}

/// Whether token ids need no cut, by a tokenizer's settings; what they were padded with counts.
pub open spec fn needs_no_cut(tok: tokenizers::Tokenizer, ids: Seq<u32>) -> bool {
    truncation_of(tok) matches Some((length, _)) ==> ids.len() <= length
}

/// Whether encoding a text can come out this way. A tokenizer that cannot cut a text encodes those
/// that need no cut.
pub open spec fn encodes(
    tok: tokenizers::Tokenizer,
    text: Seq<char>,
    outcome: Result<Seq<u32>, Seq<char>>,
) -> bool {
    &&& !cannot_pad(tok)
    &&& if cannot_cut(tok) {
        &&& outcome_of(uncut_of(tok), text, outcome)
        &&& outcome matches Ok(ids) ==> needs_no_cut(tok, ids)
    } else {
        outcome_of(tok, text, outcome)
    }
}

/// Whether a text can be encoded.
pub open spec fn can_encode(tok: tokenizers::Tokenizer, text: Seq<char>) -> bool {
    exists|ids: Seq<u32>| #[trigger] encodes(tok, text, Ok(ids))
}

/// `tokenizers::Tokenizer::encode` without special tokens: the ids of the encoding, or the text of
/// the error. All that is claimed is that what comes back is one of the outcomes that this
/// tokenizer has for this text. It panics when it truncates by a stride that is not below the
/// length, or when it pads to a length that no list can have.
#[verifier::external_body]
fn tokenize(tok: &tokenizers::Tokenizer, text: &str) -> (r: Result<Vec<u32>, String>)
    requires
        usable(*tok),
    ensures
        match r {
            Ok(ids) => outcome_of(*tok, text@, Ok(ids@)),
            Err(e) => outcome_of(*tok, text@, Err(e@)),
        },
{
    match tok.encode(text, false) {
        Ok(e) => Ok(e.get_ids().to_vec()),
        Err(e) => Err(e.to_string()),
    }
}

/// `tokenizers::Tokenizer::get_truncation`: the length and the stride of the settings, if there
/// are any.
#[verifier::external_body]
fn truncation(tok: &tokenizers::Tokenizer) -> (r: Option<(usize, usize)>)
    ensures
        r == truncation_of(*tok),
{
    match tok.get_truncation() {
        Some(t) => Some((t.max_length, t.stride)),
        None => None,
    }
}

/// `tokenizers::Tokenizer::get_padding`: the fixed length and the multiple of the settings, if
/// there are any.
#[verifier::external_body]
fn padding(tok: &tokenizers::Tokenizer) -> (r: Option<(Option<usize>, Option<usize>)>)
    ensures
        r == padding_of(*tok),
{
    match tok.get_padding() {
        Some(p) => match p.strategy {
            tokenizers::PaddingStrategy::Fixed(n) => Some((Some(n), p.pad_to_multiple_of)),
            tokenizers::PaddingStrategy::BatchLongest => Some((None, p.pad_to_multiple_of)),
        },
        None => None,
    }
}

/// `tokenizers::Tokenizer::with_truncation` without settings, on a copy: what comes back cuts no
/// text and pads as the tokenizer does. Without settings it does not fail.
#[verifier::external_body]
fn uncut(tok: &tokenizers::Tokenizer) -> (r: tokenizers::Tokenizer)
    ensures
        r == uncut_of(*tok),
        truncation_of(r) is None,
        padding_of(r) == padding_of(*tok),
{
    let mut r = tok.clone();
    let _ = r.with_truncation(None);
    r
}

fn length_allowed(n: Option<usize>) -> (r: bool)
    ensures
        r == is_length(n),
{
    match n {
        Some(n) => n <= isize::MAX as usize / 64,
        None => true,
    }
}

fn pads(tok: &tokenizers::Tokenizer) -> (r: bool)
    ensures
        r == !cannot_pad(*tok),
{
    match padding(tok) {
        Some((fixed, multiple)) => length_allowed(fixed) && length_allowed(multiple),
        None => true,
    }
}

/// `tokenizers::Tokenizer::token_to_id`: the id that the vocabulary gives a token.
#[verifier::external_body]
fn token_to_id(tok: &tokenizers::Tokenizer, token: &str) -> (r: Option<u32>)
    ensures
        r == id_of(*tok, token@),
{
    tok.token_to_id(token)
}

/// Whether an error message reports that the tokenizer refused a text, or that its settings make
/// no sense for it.
pub open spec fn refuses(tok: tokenizers::Tokenizer, text: Seq<char>, message: Seq<char>) -> bool {
    ||| message == "tokenizer: truncation or padding makes no sense"@ && {
        ||| cannot_pad(tok)
        ||| cannot_cut(tok) && exists|ids: Seq<u32>| #[trigger]
            outcome_of(uncut_of(tok), text, Ok(ids)) && !needs_no_cut(tok, ids)
    }
    ||| exists|m: Seq<char>|
        #[trigger] encodes(tok, text, Err(m)) && message == "tokenizer: "@ + m
}

/// The token ids of a text.
pub fn encode_text(tok: &tokenizers::Tokenizer, text: &str) -> (r: Result<Vec<u32>, String>)
    ensures
        match r {
            Ok(ids) => encodes(*tok, text@, Ok(ids@)),
            Err(e) => refuses(*tok, text@, e@),
        },
        cannot_pad(*tok) ==> r is Err,
{
    if !pads(tok) {
        return Err("tokenizer: truncation or padding makes no sense".to_owned());
    }
    let outcome = match truncation(tok) {
        Some((length, stride)) => {
            if length > 0 && stride >= length {
                let whole = uncut(tok);
                match tokenize(&whole, text) {
                    Ok(ids) => {
                        if ids.len() > length {
                            proof {
                                assert(outcome_of(uncut_of(*tok), text@, Ok(ids@)));
                            }
                            return Err(
                                "tokenizer: truncation or padding makes no sense".to_owned(),
                            );
                        }
                        Ok(ids)
                    },
                    Err(e) => Err(e),
                }
            } else {
                tokenize(tok, text)
            }
        },
        None => tokenize(tok, text),
    };
    match outcome {
        Ok(ids) => Ok(ids),
        Err(e) => {
            let mut m = "tokenizer: ".to_owned();
            m.append(e.as_str());
            proof {
                assert(encodes(*tok, text@, Err(e@)));
            }
            Err(m)
        },
    }
}

/// The special tokens that rows are built with.
#[derive(Debug, PartialEq, Eq)]
pub struct Specials {
    pub cls: u32,
    pub sep: u32,
    pub mask: u32,
    pub pad: u32,
    pub mask_token: String,
}

/// The text of a special token: what the tokenizer's settings say, as a text or as an object with
/// `content`, or else `usual`.
pub open spec fn token_named(cfg: Option<JsonV>, key: Seq<char>, usual: Seq<char>) -> Seq<char> {
    match cfg {
        Some(JsonV::Object(o)) => match json::member(o, key) {
            Some(JsonV::String(s)) => s,
            Some(JsonV::Object(t)) => match json::member(t, "content"@) {
                Some(JsonV::String(s)) => s,
                _ => usual,
            },
            _ => usual,
        },
        _ => usual,
    }
}

fn token_name(cfg: Option<&Json>, key: &str, usual: &str) -> (r: String)
    ensures
        r@ == token_named(
            match cfg {
                Some(c) => Some(c@),
                None => None,
            },
            key@,
            usual@,
        ),
{
    match cfg {
        Some(Json::Object(o)) => match get(o, key) {
            Some(Json::String(s)) => s.clone(),
            Some(Json::Object(t)) => match get(t, "content") {
                Some(Json::String(s)) => s.clone(),
                _ => usual.to_owned(),
            },
            _ => usual.to_owned(),
        },
        _ => usual.to_owned(),
    }
}

impl Specials {
    /// The special tokens that `cfg` names, or else the usual ones, looked up in the vocabulary.
    /// The error is the first token that the vocabulary lacks.
    pub fn resolve(tok: &tokenizers::Tokenizer, cfg: Option<&Json>) -> (r: Result<
        Specials,
        String,
    >)
        ensures
            ({
                let c = match cfg {
                    Some(c) => Some(c@),
                    None => None,
                };
                let cls = token_named(c, "cls_token"@, "[CLS]"@);
                let sep = token_named(c, "sep_token"@, "[SEP]"@);
                let mask = token_named(c, "mask_token"@, "[MASK]"@);
                let pad = token_named(c, "pad_token"@, "[PAD]"@);
                let ids = [id_of(*tok, cls), id_of(*tok, sep), id_of(*tok, mask), id_of(*tok, pad)];
                match r {
                    Ok(s) => {
                        &&& s.mask_token@ == mask
                        &&& ids[0] == Some(s.cls)
                        &&& ids[1] == Some(s.sep)
                        &&& ids[2] == Some(s.mask)
                        &&& ids[3] == Some(s.pad)
                    },
                    Err(e) => {
                        ||| ids[0] is None && e@ == cls
                        ||| ids[0] is Some && ids[1] is None && e@ == sep
                        ||| ids[0] is Some && ids[1] is Some && ids[2] is None && e@ == mask
                        ||| ids[0] is Some && ids[1] is Some && ids[2] is Some && ids[3] is None
                            && e@ == pad
                    },
                }
            }),
    {
        let mask_token = token_name(cfg, "mask_token", "[MASK]");
        let t = token_name(cfg, "cls_token", "[CLS]");
        let cls = match token_to_id(tok, t.as_str()) {
            Some(id) => id,
            None => return Err(t),
        };
        let t = token_name(cfg, "sep_token", "[SEP]");
        let sep = match token_to_id(tok, t.as_str()) {
            Some(id) => id,
            None => return Err(t),
        };
        let mask = match token_to_id(tok, mask_token.as_str()) {
            Some(id) => id,
            None => return Err(mask_token),
        };
        let t = token_name(cfg, "pad_token", "[PAD]");
        let pad = match token_to_id(tok, t.as_str()) {
            Some(id) => id,
            None => return Err(t),
        };
        Ok(Specials { cls, sep, mask, pad, mask_token })
    }

    /// Special tokens equal to these.
    pub fn copy(&self) -> (r: Specials)
        ensures
            r == (Specials { mask_token: r.mask_token, ..*self }),
            r.mask_token@ == self.mask_token@,
    {
        Specials {
            cls: self.cls,
            sep: self.sep,
            mask: self.mask,
            pad: self.pad,
            mask_token: self.mask_token.clone(),
        }
    }
}

/// What is said when a special token is missing.
pub open spec fn missing_token_words(token: Seq<char>) -> Seq<char> {
    "special token "@ + debug_of(token) + " missing from tokenizer"@
}

/// What is said when a special token is missing.
pub fn missing_token_message(token: &str) -> (r: String)
    ensures
        r@ == missing_token_words(token@),
{
    let mut r = "special token ".to_owned();
    r.append(debug_text(token).as_str());
    r.append(" missing from tokenizer");
    r
}

/// The text of a state that is tokenized: mask tokens in it become spaces.
pub open spec fn state_text(state: JsonV, mask_token: Seq<char>) -> Seq<char> {
    text::replaced(criterion_text(state), mask_token, " "@)
}

/// The token ids of a state, shared by all questions.
pub fn encode_state(tok: &tokenizers::Tokenizer, sp: &Specials, state: &Json) -> (r: Result<
    Vec<u32>,
    String,
>)
    ensures
        match r {
            Ok(ids) => encodes(*tok, state_text(state@, sp.mask_token@), Ok(ids@)),
            Err(e) => refuses(*tok, state_text(state@, sp.mask_token@), e@),
        },
{
    let t = serialize_state(state);
    let t = replace(t.as_str(), sp.mask_token.as_str(), " ");
    encode_text(tok, t.as_str())
}

/// The text of a question's head.
pub open spec fn head_text(q: QuestionV, mask_token: Seq<char>) -> Seq<char> {
    q.t.label() + " question: "@ + text::replaced(q.ins, mask_token, " "@)
}

/// The text of an option, as it is tokenized behind its mask token.
pub open spec fn option_text(option: Seq<char>, mask_token: Seq<char>) -> Seq<char> {
    " "@ + text::replaced(option, mask_token, " "@)
}

/// The token ids of each of several runs.
pub open spec fn runs(v: Seq<Vec<u32>>) -> Seq<Seq<u32>> {
    Seq::new(v.len(), |i: int| v[i]@)
}

/// The token ids of each of several borrowed runs.
pub open spec fn slices(v: Seq<&[u32]>) -> Seq<Seq<u32>> {
    Seq::new(v.len(), |i: int| v[i]@)
}

/// A question's tokens, whole: the head, and each option behind its mask token.
#[derive(Debug, PartialEq, Eq)]
pub struct QuestionParts {
    pub head: Vec<u32>,
    pub opts: Vec<Vec<u32>>,
}

/// The value of a question's tokens.
#[verifier::ext_equal]
pub struct PartsV {
    pub head: Seq<u32>,
    pub opts: Seq<Seq<u32>>,
}

impl View for QuestionParts {
    type V = PartsV;

    open spec fn view(&self) -> PartsV {
        PartsV { head: self.head@, opts: runs(self.opts@) }
    }
}

/// The tokens of the options `which`.
pub open spec fn tokens_in(opts: Seq<Seq<u32>>, which: Seq<usize>) -> nat
    decreases which.len(),
{
    if which.len() == 0 {
        0
    } else {
        tokens_in(opts, which.drop_last()) + opts[which.last() as int].len()
    }
}

/// The tokens of the options `which`.
pub open spec fn chosen(opts: Seq<Seq<u32>>, which: Seq<usize>) -> Seq<Seq<u32>> {
    Seq::new(which.len(), |i: int| opts[which[i] as int])
}

/// The options chosen have as many tokens as are counted for them.
pub proof fn lemma_chosen_tokens(opts: Seq<Seq<u32>>, which: Seq<usize>)
    ensures
        flat(chosen(opts, which)).len() == tokens_in(opts, which),
    decreases which.len(),
{
    if which.len() > 0 {
        lemma_chosen_tokens(opts, which.drop_last());
        assert(chosen(opts, which).drop_last() =~= chosen(opts, which.drop_last()));
    }
}

/// The tokens counted for a question are those of its rows: a row behind nothing has that many, and
/// a row in front of a state has the state's and the closing separator besides.
pub proof fn lemma_counted_tokens_are_the_rows(
    cls: u32,
    sep: u32,
    p: PartsV,
    which: Seq<usize>,
    state: Seq<u32>,
)
    ensures
        ({
            let question = question_ids(cls, sep, p.head, chosen(p.opts, which));
            &&& (Seq::<u32>::empty() + question).len() == p.tokens(which)
            &&& (question + state + seq![sep]).len() == p.tokens(which) + state.len() + 1
        }),
{
    lemma_chosen_tokens(p.opts, which);
}

/// Whether every index of `which` names an option.
pub open spec fn names_options(opts: Seq<Seq<u32>>, which: Seq<usize>) -> bool {
    forall|i: int| 0 <= i < which.len() ==> (#[trigger] which[i]) < opts.len()
}

impl PartsV {
    /// The tokens of `[CLS] head [SEP] opts.. [SEP]` for the options `which`.
    pub open spec fn tokens(self, which: Seq<usize>) -> nat {
        self.head.len() + 3 + tokens_in(self.opts, which)
    }
}

/// Fewer options have no more tokens.
pub proof fn lemma_tokens_in_take(opts: Seq<Seq<u32>>, which: Seq<usize>, n: int)
    requires
        0 <= n <= which.len(),
    ensures
        tokens_in(opts, which.take(n)) <= tokens_in(opts, which),
    decreases which.len() - n,
{
    if n < which.len() {
        lemma_tokens_in_take(opts, which, n + 1);
        assert(which.take(n + 1).drop_last() =~= which.take(n));
    } else {
        assert(which.take(n) =~= which);
    }
}

/// The tokens of the options `which`.
pub fn sum_tokens(parts: &QuestionParts, which: &[usize]) -> (n: usize)
    requires
        names_options(parts@.opts, which@),
        tokens_in(parts@.opts, which@) <= usize::MAX,
    ensures
        n == tokens_in(parts@.opts, which@),
{
    let mut n: usize = 0;
    let mut i: usize = 0;
    proof {
        assert(which@.take(0) =~= Seq::empty());
    }
    while i < which.len()
        invariant
            i <= which@.len(),
            names_options(parts@.opts, which@),
            tokens_in(parts@.opts, which@) <= usize::MAX,
            n == tokens_in(parts@.opts, which@.take(i as int)),
        decreases which@.len() - i,
    {
        proof {
            lemma_tokens_in_take(parts@.opts, which@, i + 1);
            assert(which@.take(i + 1).drop_last() =~= which@.take(i as int));
            assert(which@.take(i + 1).last() == which@[i as int]);
            assert(which@[i as int] < parts@.opts.len());
        }
        n += parts.opts[which[i]].len();
        i += 1;
    }
    proof {
        assert(which@.take(i as int) =~= which@);
    }
    n
}

impl QuestionParts {
    /// The tokens of `[CLS] head [SEP] opts.. [SEP]` for the options `which`.
    pub fn len(&self, which: &[usize]) -> (n: usize)
        requires
            names_options(self@.opts, which@),
            self@.tokens(which@) <= usize::MAX,
        ensures
            n == self@.tokens(which@),
    {
        let n: usize = sum_tokens(self, which);
        self.head.len() + 3 + n
    }
}

/// Whether `p` are tokens that `tok` has for the question `q`.
pub open spec fn tokens_of(
    tok: tokenizers::Tokenizer,
    mask: u32,
    mask_token: Seq<char>,
    q: QuestionV,
    p: PartsV,
) -> bool {
    &&& encodes(tok, head_text(q, mask_token), Ok(p.head))
    &&& p.opts.len() == q.rendered().len()
    &&& forall|i: int|
        0 <= i < p.opts.len() ==> {
            &&& (#[trigger] p.opts[i]).len() >= 1
            &&& p.opts[i][0] == mask
            &&& encodes(tok, option_text(q.rendered()[i], mask_token), Ok(p.opts[i].skip(1)))
        }
}

/// Whether a question has tokens.
pub open spec fn has_tokens(
    tok: tokenizers::Tokenizer,
    mask: u32,
    mask_token: Seq<char>,
    q: QuestionV,
) -> bool {
    exists|p: PartsV| #[trigger] tokens_of(tok, mask, mask_token, q, p)
}

/// Whether `message` reports that `tok` refused an option of the question `q`, the first that it
/// refused.
pub open spec fn refuses_option(
    tok: tokenizers::Tokenizer,
    mask_token: Seq<char>,
    q: QuestionV,
    i: int,
    message: Seq<char>,
) -> bool {
    &&& 0 <= i < q.rendered().len()
    &&& forall|j: int|
        0 <= j < i ==> can_encode(tok, option_text(#[trigger] q.rendered()[j], mask_token))
    &&& refuses(tok, option_text(q.rendered()[i], mask_token), message)
}

/// Whether `message` reports that `tok` refused a text of the question `q`, the first that it
/// refused: its head, or an option.
pub open spec fn refuses_question(
    tok: tokenizers::Tokenizer,
    mask_token: Seq<char>,
    q: QuestionV,
    message: Seq<char>,
) -> bool {
    ||| refuses(tok, head_text(q, mask_token), message)
    ||| can_encode(tok, head_text(q, mask_token)) && exists|i: int| #[trigger]
        refuses_option(tok, mask_token, q, i, message)
}

/// A question's tokens, with nothing cut.
pub fn question_parts(tok: &tokenizers::Tokenizer, sp: &Specials, q: &Question) -> (r: Result<
    QuestionParts,
    String,
>)
    ensures
        match r {
            Ok(p) => tokens_of(*tok, sp.mask, sp.mask_token@, q@, p@),
            Err(e) => refuses_question(*tok, sp.mask_token@, q@, e@),
        },
{
    let ins = replace(q.ins.as_str(), sp.mask_token.as_str(), " ");
    let mut t = q.t.name().to_owned();
    t.append(" question: ");
    t.append(ins.as_str());
    let head = match encode_text(tok, t.as_str()) {
        Ok(h) => h,
        Err(e) => return Err(e),
    };
    let texts = q.render_options();
    let ghost all = q@.rendered();
    let mut opts: Vec<Vec<u32>> = Vec::new();
    let mut i: usize = 0;
    while i < texts.len()
        invariant
            i <= texts@.len(),
            text::texts(texts@) == all,
            all == q@.rendered(),
            opts@.len() == i,
            can_encode(*tok, head_text(q@, sp.mask_token@)),
            forall|j: int|
                0 <= j < i ==> {
                    &&& (#[trigger] runs(opts@)[j]).len() >= 1
                    &&& runs(opts@)[j][0] == sp.mask
                    &&& encodes(
                        *tok,
                        option_text(all[j], sp.mask_token@),
                        Ok(runs(opts@)[j].skip(1)),
                    )
                },
        decreases texts@.len() - i,
    {
        let o = replace(texts[i].as_str(), sp.mask_token.as_str(), " ");
        let mut t = " ".to_owned();
        t.append(o.as_str());
        proof {
            assert(all[i as int] == texts@[i as int]@);
        }
        let ids = match encode_text(tok, t.as_str()) {
            Ok(ids) => ids,
            Err(e) => {
                proof {
                    assert forall|j: int| 0 <= j < i implies can_encode(
                        *tok,
                        option_text(#[trigger] q@.rendered()[j], sp.mask_token@),
                    ) by {
                        assert(encodes(
                            *tok,
                            option_text(all[j], sp.mask_token@),
                            Ok(runs(opts@)[j].skip(1)),
                        ));
                    }
                    assert(refuses_option(*tok, sp.mask_token@, q@, i as int, e@));
                }
                return Err(e);
            },
        };
        let mut v: Vec<u32> = Vec::new();
        v.push(sp.mask);
        v.extend_from_slice(ids.as_slice());
        proof {
            assert(v@.skip(1) =~= ids@);
        }
        let ghost before = opts@;
        opts.push(v);
        proof {
            assert forall|j: int| 0 <= j < i + 1 implies {
                &&& (#[trigger] runs(opts@)[j]).len() >= 1
                &&& runs(opts@)[j][0] == sp.mask
                &&& encodes(*tok, option_text(all[j], sp.mask_token@), Ok(runs(opts@)[j].skip(1)))
            } by {
                if j < i {
                    assert(runs(before)[j] == runs(opts@)[j]);
                }
            }
        }
        i += 1;
    }
    Ok(QuestionParts { head, opts })
}

// ---------------------------------------------------------------------------------------------
// Rows

/// One row of tokens for the model, with the place of each option's mask token.
#[derive(Debug, PartialEq, Eq)]
pub struct Encoded {
    pub ids: Vec<u32>,
    pub markers: Vec<usize>,
    pub qtype: QType,
    /// How many leading tokens are the state; 0 when the question comes first.
    pub prefix_len: usize,
}

/// Several runs of tokens, one after another.
pub open spec fn flat(opts: Seq<Seq<u32>>) -> Seq<u32>
    decreases opts.len(),
{
    if opts.len() == 0 {
        Seq::empty()
    } else {
        flat(opts.drop_last()) + opts.last()
    }
}

/// The question part of a row: `[CLS] head [SEP] [MASK] opt0 ... [SEP]`.
pub open spec fn question_ids(cls: u32, sep: u32, head: Seq<u32>, opts: Seq<Seq<u32>>) -> Seq<u32> {
    seq![cls] + head + seq![sep] + flat(opts) + seq![sep]
}

/// Where each option starts in a row whose question part begins at `start`.
pub open spec fn marker_places(start: nat, head: nat, opts: Seq<Seq<u32>>) -> Seq<int> {
    Seq::new(opts.len(), |i: int| start as int + head + 2 + flat(opts.take(i)).len())
}

/// The places as integers.
pub open spec fn ints(v: Seq<usize>) -> Seq<int> {
    Seq::new(v.len(), |i: int| v[i] as int)
}

/// At most the first `n` tokens.
pub open spec fn cut(s: Seq<u32>, n: int) -> Seq<u32> {
    if s.len() > n && n >= 0 {
        s.take(n)
    } else {
        s
    }
}

/// The first options' tokens are the first tokens of all options.
pub proof fn lemma_flat_take(opts: Seq<Seq<u32>>, i: int)
    requires
        0 <= i <= opts.len(),
    ensures
        flat(opts.take(i)).len() <= flat(opts).len(),
        flat(opts).take(flat(opts.take(i)).len() as int) == flat(opts.take(i)),
        i < opts.len() ==> flat(opts.take(i)).len() + opts[i].len() <= flat(opts).len(),
        i < opts.len() ==> flat(opts).subrange(
            flat(opts.take(i)).len() as int,
            (flat(opts.take(i)).len() + opts[i].len()) as int,
        ) == opts[i],
    decreases opts.len() - i,
{
    if i < opts.len() {
        lemma_flat_take(opts, i + 1);
        let a = flat(opts.take(i));
        let b = flat(opts.take(i + 1));
        assert(opts.take(i + 1).drop_last() =~= opts.take(i));
        assert(b == a + opts[i]);
        let all = flat(opts);
        assert(all.take(b.len() as int) == b);
        assert(all.take(a.len() as int) =~= b.take(a.len() as int));
        assert(b.take(a.len() as int) =~= a);
        assert(all.subrange(a.len() as int, (a.len() + opts[i].len()) as int) =~= b.subrange(
            a.len() as int,
            (a.len() + opts[i].len()) as int,
        ));
        assert(b.subrange(a.len() as int, (a.len() + opts[i].len()) as int) =~= opts[i]);
    } else {
        assert(opts.take(i) =~= opts);
        assert(flat(opts).take(flat(opts).len() as int) =~= flat(opts));
    }
}

/// Appends the question part of a row and returns where each option starts.
fn push_question(ids: &mut Vec<u32>, sp: &Specials, head: &[u32], opts: &[&[u32]]) -> (markers: Vec<
    usize,
>)
    ensures
        final(ids)@ == old(ids)@ + question_ids(sp.cls, sp.sep, head@, slices(opts@)),
        ints(markers@) == marker_places(old(ids)@.len(), head@.len(), slices(opts@)),
{
    let ghost before = ids@;
    let ghost all = slices(opts@);
    ids.push(sp.cls);
    ids.extend_from_slice(head);
    ids.push(sp.sep);
    let mut markers: Vec<usize> = Vec::new();
    let mut i: usize = 0;
    proof {
        assert(all.take(0) =~= Seq::empty());
        assert(ids@ =~= before + (seq![sp.cls] + head@ + seq![sp.sep] + flat(all.take(0))));
        assert(ints(markers@) =~= marker_places(before.len(), head@.len(), all.take(0)));
    }
    while i < opts.len()
        invariant
            i <= opts@.len(),
            all == slices(opts@),
            ids@ == before + (seq![sp.cls] + head@ + seq![sp.sep] + flat(all.take(i as int))),
            ints(markers@) == marker_places(before.len(), head@.len(), all.take(i as int)),
        decreases opts@.len() - i,
    {
        let ghost old_markers = markers@;
        let at: usize = ids.len();
        markers.push(at);
        ids.extend_from_slice(opts[i]);
        proof {
            let t = all.take(i + 1);
            assert(t.drop_last() =~= all.take(i as int));
            assert(t.last() == opts@[i as int]@);
            assert(ids@ =~= before + (seq![sp.cls] + head@ + seq![sp.sep] + flat(t)));
            let want = marker_places(before.len(), head@.len(), t);
            assert(ints(old_markers).len() == i);
            assert(at == before.len() + head@.len() + 2 + flat(all.take(i as int)).len());
            assert forall|j: int| 0 <= j <= i implies #[trigger] ints(markers@)[j] == want[j] by {
                assert(t.take(j) =~= all.take(i as int).take(j));
                if j < i {
                    assert(ints(old_markers)[j] == marker_places(
                        before.len(),
                        head@.len(),
                        all.take(i as int),
                    )[j]);
                } else {
                    assert(all.take(i as int).take(j) =~= all.take(i as int));
                }
            }
            assert(ints(markers@) =~= want);
        }
        i += 1;
    }
    ids.push(sp.sep);
    proof {
        assert(all.take(i as int) =~= all);
        assert(ids@ =~= before + question_ids(sp.cls, sp.sep, head@, all));
    }
    markers
}

/// A row with the question first: `[CLS] head [SEP] opts.. [SEP] state [SEP]`, nothing cut.
pub fn joint_row(sp: &Specials, qtype: QType, head: &[u32], opts: &[&[u32]], state: &[u32]) -> (r:
    Encoded)
    ensures
        r.ids@ == question_ids(sp.cls, sp.sep, head@, slices(opts@)) + state@ + seq![sp.sep],
        ints(r.markers@) == marker_places(0, head@.len(), slices(opts@)),
        r.qtype == qtype,
        r.prefix_len == 0,
{
    let mut ids: Vec<u32> = Vec::new();
    let markers = push_question(&mut ids, sp, head, opts);
    ids.extend_from_slice(state);
    ids.push(sp.sep);
    proof {
        assert(ids@ =~= question_ids(sp.cls, sp.sep, head@, slices(opts@)) + state@ + seq![sp.sep]);
    }
    Encoded { ids, markers, qtype, prefix_len: 0 }
}

/// A row with the state first: `prefix` (`[CLS] state [SEP]`) and then the question part.
pub fn prefix_row(
    sp: &Specials,
    qtype: QType,
    head: &[u32],
    opts: &[&[u32]],
    prefix: &[u32],
) -> (r: Encoded)
    ensures
        r.ids@ == prefix@ + question_ids(sp.cls, sp.sep, head@, slices(opts@)),
        ints(r.markers@) == marker_places(prefix@.len(), head@.len(), slices(opts@)),
        r.qtype == qtype,
        r.prefix_len == prefix@.len(),
{
    let mut ids: Vec<u32> = Vec::new();
    ids.extend_from_slice(prefix);
    proof {
        assert(ids@ =~= prefix@);
    }
    let markers = push_question(&mut ids, sp, head, opts);
    Encoded { ids, markers, qtype, prefix_len: prefix.len() }
}

/// The markers of a row stand where the options start: whatever precedes and follows the question
/// part, the tokens from a marker on are the option's own.
pub proof fn lemma_markers_find_options(
    before: Seq<u32>,
    cls: u32,
    sep: u32,
    head: Seq<u32>,
    opts: Seq<Seq<u32>>,
    after: Seq<u32>,
    i: int,
)
    requires
        0 <= i < opts.len(),
    ensures
        ({
            let row = before + question_ids(cls, sep, head, opts) + after;
            let at = marker_places(before.len(), head.len(), opts)[i];
            &&& 0 <= at
            &&& at + opts[i].len() <= row.len()
            &&& row.subrange(at, at + opts[i].len()) == opts[i]
        }),
{
    lemma_flat_take(opts, i);
    let row = before + question_ids(cls, sep, head, opts) + after;
    let at = marker_places(before.len(), head.len(), opts)[i];
    let k = flat(opts.take(i)).len() as int;
    assert(row.subrange(at, at + opts[i].len()) =~= flat(opts).subrange(k, k + opts[i].len()));
}

/// A row that is built of an option with its mask token has that mask token at the marker.
pub proof fn lemma_markers_are_masks(
    before: Seq<u32>,
    cls: u32,
    sep: u32,
    head: Seq<u32>,
    opts: Seq<Seq<u32>>,
    after: Seq<u32>,
    i: int,
)
    requires
        0 <= i < opts.len(),
        opts[i].len() >= 1,
    ensures
        (before + question_ids(cls, sep, head, opts) + after)[marker_places(
            before.len(),
            head.len(),
            opts,
        )[i]] == opts[i][0],
{
    lemma_markers_find_options(before, cls, sep, head, opts, after, i);
    let row = before + question_ids(cls, sep, head, opts) + after;
    let at = marker_places(before.len(), head.len(), opts)[i];
    assert(row.subrange(at, at + opts[i].len())[0] == row[at]);
}

/// The part of a state that fits `room` tokens: its end when `left` is cut, else its start.
pub open spec fn kept_state(state: Seq<u32>, room: nat, truncate_left: bool) -> Seq<u32> {
    if state.len() <= room {
        state
    } else if truncate_left {
        state.skip(state.len() - room)
    } else {
        state.take(room as int)
    }
}

/// The part of a state that fits `room` tokens.
pub fn truncate_state<'a>(state_ids: &'a [u32], room: usize, truncate_left: bool) -> (r: &'a [u32])
    ensures
        r@ == kept_state(state_ids@, room as nat, truncate_left),
{
    let n: usize = state_ids.len();
    if truncate_left {
        let a: usize = if n > room {
            n - room
        } else {
            0
        };
        let r = &state_ids[a..n];
        proof {
            assert(r@ =~= kept_state(state_ids@, room as nat, truncate_left));
        }
        r
    } else {
        let b: usize = if n > room {
            room
        } else {
            n
        };
        let r = &state_ids[0..b];
        proof {
            assert(r@ =~= kept_state(state_ids@, room as nat, truncate_left));
        }
        r
    }
}

/// What is kept of a state that does not fit is as much as fits, of one end: cut on the left it is
/// the end of the state, so that its last token stays, and cut on the right its start. A state that
/// fits is kept whole.
pub proof fn lemma_cutting_keeps_one_end(state: Seq<u32>, room: nat, truncate_left: bool)
    ensures
        ({
            let kept = kept_state(state, room, truncate_left);
            let lost = state.len() - kept.len();
            &&& state.len() <= room ==> kept == state
            &&& state.len() > room ==> kept.len() == room
            &&& truncate_left ==> state == state.take(lost) + kept
            &&& !truncate_left ==> state == kept + state.skip(kept.len() as int)
            &&& truncate_left && kept.len() > 0 ==> kept.last() == state.last()
            &&& !truncate_left && kept.len() > 0 ==> kept[0] == state[0]
        }),
{
    let kept = kept_state(state, room, truncate_left);
    let lost = state.len() - kept.len();
    if truncate_left {
        assert(state =~= state.take(lost) + kept);
    } else {
        assert(state =~= kept + state.skip(kept.len() as int));
    }
}

/// The question part of a row: the opening token, the head, a separator, the options in their
/// order, and a separator.
pub proof fn lemma_question_parts_stand_in_order(
    cls: u32,
    sep: u32,
    head: Seq<u32>,
    opts: Seq<Seq<u32>>,
)
    ensures
        ({
            let ids = question_ids(cls, sep, head, opts);
            let h = head.len() as int;
            &&& ids.len() == h + flat(opts).len() + 3
            &&& ids[0] == cls
            &&& ids.subrange(1, h + 1) == head
            &&& ids[h + 1] == sep
            &&& ids.subrange(h + 2, ids.len() - 1) == flat(opts)
            &&& ids.last() == sep
        }),
{
    let ids = question_ids(cls, sep, head, opts);
    let h = head.len() as int;
    assert(ids.subrange(1, h + 1) =~= head);
    assert(ids.subrange(h + 2, ids.len() - 1) =~= flat(opts));
}

// ---------------------------------------------------------------------------------------------
// Rows of fixed length

/// Tokens that an option keeps, besides its mask token.
pub const OPTION_MAX_TOKENS: usize = 48;

/// Each run cut to at most `n` tokens.
pub open spec fn cut_all(opts: Seq<Seq<u32>>, n: int) -> Seq<Seq<u32>> {
    Seq::new(opts.len(), |i: int| cut(opts[i], n))
}

/// A length as the signed number of the same bits.
pub open spec fn signed(n: usize) -> int {
    if n <= isize::MAX {
        n as int
    } else {
        n - usize::MAX - 1
    }
}

/// The larger of two numbers.
pub open spec fn larger(a: int, b: int) -> int {
    if a >= b {
        a
    } else {
        b
    }
}

/// The most tokens an option keeps when all of them together leave the head no room.
pub open spec fn option_share(options: nat, head_max_len: usize) -> int {
    let spare = if head_max_len >= 16 {
        head_max_len - 16
    } else {
        0
    };
    larger(4, spare / larger(options as int, 1))
}

/// A question's tokens cut to the trained question size: options to a fixed number of tokens,
/// then to equal shares when they leave fewer than 16 tokens for the head, and the head to what
/// is left but no fewer than 8 tokens.
pub open spec fn budgeted(p: PartsV, head_max_len: usize) -> PartsV {
    let first = cut_all(p.opts, OPTION_MAX_TOKENS + 1);
    let opts = if signed(head_max_len) - flat(first).len() < 16 {
        cut_all(first, option_share(p.opts.len(), head_max_len))
    } else {
        first
    };
    PartsV { head: cut(p.head, larger(8, signed(head_max_len) - flat(opts).len())), opts }
}


/// Cuts each run to at most `n` tokens and returns how many tokens are left.
fn cut_runs(opts: &mut Vec<Vec<u32>>, n: usize) -> (total: u128)
    ensures
        runs(final(opts)@) == cut_all(runs(old(opts)@), n as int),
        total == flat(runs(final(opts)@)).len(),
{
    let ghost before = runs(opts@);
    let ghost all = cut_all(before, n as int);
    let mut total: u128 = 0;
    let mut i: usize = 0;
    proof {
        assert(all.take(0) =~= Seq::empty());
    }
    while i < opts.len()
        invariant
            i <= opts@.len(),
            opts@.len() == before.len(),
            all == cut_all(before, n as int),
            forall|j: int| 0 <= j < i ==> (#[trigger] opts@[j])@ == all[j],
            forall|j: int| i <= j < opts@.len() ==> (#[trigger] opts@[j])@ == before[j],
            total == flat(all.take(i as int)).len(),
            total <= i * usize::MAX,
        decreases opts@.len() - i,
    {
        opts[i].truncate(n);
        let len: usize = opts[i].len();
        proof {
            assert(opts@[i as int]@ =~= all[i as int]);
            assert(all.take(i + 1).drop_last() =~= all.take(i as int));
            assert(i * usize::MAX + usize::MAX == (i + 1) * usize::MAX) by (nonlinear_arith);
            assert((i + 1) * usize::MAX < u128::MAX) by (nonlinear_arith)
                requires
                    i + 1 <= usize::MAX,
            ;
        }
        total += len as u128;
        i += 1;
    }
    proof {
        assert(all.take(i as int) =~= all);
        assert(runs(opts@) =~= all);
    }
    total
}

/// Cuts a question's tokens to the trained question size.
pub fn fit_budget(parts: QuestionParts, head_max_len: usize) -> (r: QuestionParts)
    ensures
        r@ == budgeted(parts@, head_max_len),
{
    let mut head = parts.head;
    let mut opts = parts.opts;
    let ghost p = parts@;
    let size: i128 = if head_max_len <= isize::MAX as usize {
        head_max_len as i128
    } else {
        head_max_len as i128 - usize::MAX as i128 - 1
    };
    let k: usize = opts.len();
    let first: u128 = cut_runs(&mut opts, OPTION_MAX_TOKENS + 1);
    let mut left: i128 = less(size, first);
    if left < 16 {
        let spare: usize = if head_max_len >= 16 {
            head_max_len - 16
        } else {
            0
        };
        let by: usize = if k >= 1 {
            k
        } else {
            1
        };
        let share: usize = spare / by;
        let per: usize = if share >= 4 {
            share
        } else {
            4
        };
        let second: u128 = cut_runs(&mut opts, per);
        left = less(size, second);
    }
    let room: i128 = if left >= 8 {
        left
    } else {
        8
    };
    if room < head.len() as i128 {
        head.truncate(room as usize);
    }
    let r = QuestionParts { head, opts };
    proof {
        assert(r@.head =~= budgeted(p, head_max_len).head);
        assert(r@.opts =~= budgeted(p, head_max_len).opts);
    }
    r
}

/// A size less a number of tokens; any result below -1 reads as -1.
fn less(size: i128, n: u128) -> (r: i128)
    requires
        -usize::MAX - 1 <= size <= usize::MAX,
    ensures
        size - n >= 0 ==> r == size - n,
        size - n < 0 ==> r < 0,
{
    if size < 0 || n > size as u128 {
        -1
    } else {
        size - n as i128
    }
}

/// A question's tokens cut to the trained question size.
pub fn question_tokens(
    tok: &tokenizers::Tokenizer,
    sp: &Specials,
    q: &Question,
    head_max_len: usize,
) -> (r: Result<QuestionParts, String>)
    ensures
        match r {
            Ok(p) => exists|whole: PartsV| #[trigger]
                tokens_of(*tok, sp.mask, sp.mask_token@, q@, whole) && p@ == budgeted(
                    whole,
                    head_max_len,
                ),
            Err(e) => refuses_question(*tok, sp.mask_token@, q@, e@),
        },
{
    match question_parts(tok, sp, q) {
        Ok(p) => Ok(fit_budget(p, head_max_len)),
        Err(e) => Err(e),
    }
}

/// The runs, borrowed.
pub fn borrow_runs<'a>(v: &'a Vec<Vec<u32>>) -> (r: Vec<&'a [u32]>)
    ensures
        slices(r@) == runs(v@),
{
    let mut r: Vec<&'a [u32]> = Vec::new();
    let mut i: usize = 0;
    while i < v.len()
        invariant
            i <= v@.len(),
            r@.len() == i,
            forall|j: int| 0 <= j < i ==> (#[trigger] r@[j])@ == v@[j]@,
        decreases v@.len() - i,
    {
        r.push(v[i].as_slice());
        i += 1;
    }
    proof {
        assert(slices(r@) =~= runs(v@));
    }
    r
}

/// Why a question has no row.
#[derive(Debug, PartialEq, Eq)]
pub enum SequenceError {
    /// The tokenizer refused a text.
    Tokenizer(String),
    /// The options take more than `head_max_len` leaves in a row.
    OptionsTooLong(usize),
}

impl SequenceError {
    /// The error in words.
    pub open spec fn words(self) -> Seq<char> {
        match self {
            SequenceError::Tokenizer(m) => m@,
            SequenceError::OptionsTooLong(n) => "question options exceed head_max_len="@
                + text::dec(n as nat),
        }
    }

    /// The error in words.
    pub fn message(&self) -> (r: String)
        ensures
            r@ == self.words(),
    {
        match self {
            SequenceError::Tokenizer(m) => m.clone(),
            SequenceError::OptionsTooLong(n) => {
                let mut r = "question options exceed head_max_len=".to_owned();
                r.append(decimal(*n as u64).as_str());
                r
            },
        }
    }
}

/// The room for the state in a row of `max_len` tokens with a question part of `question` tokens
/// and a closing separator.
pub open spec fn state_room(max_len: nat, question: nat) -> nat {
    if max_len > question + 1 {
        (max_len - question - 1) as nat
    } else {
        0
    }
}

/// The tokens of a row of at most `max_len` tokens, question first.
pub open spec fn fixed_row(
    cls: u32,
    sep: u32,
    p: PartsV,
    state: Seq<u32>,
    max_len: usize,
    truncate_left: bool,
) -> Seq<u32> {
    let question = question_ids(cls, sep, p.head, p.opts);
    let room = state_room(max_len as nat, question.len());
    cut(question + kept_state(state, room, truncate_left) + seq![sep], max_len as int)
}

/// A row of fixed length begins with its question. Where that leaves room it goes on with the state
/// and ends with a separator: with the whole state when it fits, and else it is as long as rows may
/// be, with the end of the state in front of the separator when it is cut on the left, and the start
/// of the state behind the question when it is cut on the right.
pub proof fn lemma_rows_keep_one_end_of_the_state(
    cls: u32,
    sep: u32,
    p: PartsV,
    state: Seq<u32>,
    max_len: usize,
    truncate_left: bool,
)
    requires
        question_ids(cls, sep, p.head, p.opts).len() + 1 < max_len,
    ensures
        ({
            let row = fixed_row(cls, sep, p, state, max_len, truncate_left);
            let question = question_ids(cls, sep, p.head, p.opts);
            let n = question.len() as int;
            let room = max_len - n - 1;
            &&& row.take(n) == question
            &&& row.last() == sep
            &&& state.len() <= room ==> row == question + state + seq![sep]
            &&& state.len() > room ==> row.len() == max_len
            &&& state.len() > room && truncate_left ==> row.subrange(n, n + room) == state.skip(
                state.len() - room,
            ) && row[row.len() - 2] == state.last()
            &&& state.len() > room && !truncate_left ==> row.subrange(n, n + room) == state.take(
                room,
            ) && row[n] == state[0]
        }),
{
    let row = fixed_row(cls, sep, p, state, max_len, truncate_left);
    let question = question_ids(cls, sep, p.head, p.opts);
    let n = question.len() as int;
    let room = max_len - n - 1;
    let kept = kept_state(state, room as nat, truncate_left);
    lemma_cutting_keeps_one_end(state, room as nat, truncate_left);
    assert(row =~= question + kept + seq![sep]);
    assert(row.take(n) =~= question);
    assert(row.subrange(n, n + kept.len()) =~= kept);
    if state.len() > room && truncate_left {
        assert(kept =~= state.skip(state.len() - room));
    }
    if state.len() > room && !truncate_left {
        assert(kept =~= state.take(room));
    }
}

/// Whether every option starts inside a row of `max_len` tokens, question first.
pub open spec fn options_fit(p: PartsV, max_len: usize) -> bool {
    forall|i: int|
        0 <= i < p.opts.len() ==> #[trigger] marker_places(0, p.head.len(), p.opts)[i] < max_len
}

/// A row of at most `max_len` tokens, question first; `None` when an option would start outside
/// it.
pub fn sequence_row(
    sp: &Specials,
    qtype: QType,
    parts: &QuestionParts,
    state_ids: &[u32],
    max_len: usize,
    truncate_left: bool,
) -> (r: Option<Encoded>)
    ensures
        match r {
            Some(e) => {
                &&& options_fit(parts@, max_len)
                &&& e.ids@ == fixed_row(sp.cls, sp.sep, parts@, state_ids@, max_len, truncate_left)
                &&& ints(e.markers@) == marker_places(0, parts@.head.len(), parts@.opts)
                &&& e.qtype == qtype
                &&& e.prefix_len == 0
            },
            None => !options_fit(parts@, max_len),
        },
{
    let mut ids: Vec<u32> = Vec::new();
    let opts = borrow_runs(&parts.opts);
    let markers = push_question(&mut ids, sp, parts.head.as_slice(), opts.as_slice());
    let ghost question = question_ids(sp.cls, sp.sep, parts@.head, parts@.opts);
    let ghost places = marker_places(0, parts@.head.len(), parts@.opts);
    proof {
        assert(ids@ =~= question);
    }
    let n: usize = ids.len();
    let room: usize = if n < max_len {
        max_len - n - 1
    } else {
        0
    };
    let state = truncate_state(state_ids, room, truncate_left);
    ids.extend_from_slice(state);
    ids.push(sp.sep);
    proof {
        assert(ids@ =~= question + state@ + seq![sp.sep]);
    }
    ids.truncate(max_len);
    proof {
        assert(ids@ =~= fixed_row(sp.cls, sp.sep, parts@, state_ids@, max_len, truncate_left));
    }
    let mut i: usize = 0;
    while i < markers.len()
        invariant
            i <= markers@.len(),
            ints(markers@) == places,
            places == marker_places(0, parts@.head.len(), parts@.opts),
            forall|j: int| 0 <= j < i ==> #[trigger] places[j] < max_len,
        decreases markers@.len() - i,
    {
        proof {
            assert(places[i as int] == ints(markers@)[i as int]);
        }
        if markers[i] >= max_len {
            proof {
                assert(places.len() == parts@.opts.len());
            }
            return None;
        }
        i += 1;
    }
    proof {
        assert(ints(markers@).len() == places.len());
    }
    Some(Encoded { ids, markers, qtype, prefix_len: 0 })
}

/// A question's row of at most `max_len` tokens, question first.
pub fn build_sequence(
    tok: &tokenizers::Tokenizer,
    sp: &Specials,
    q: &Question,
    state_ids: &[u32],
    max_len: usize,
    head_max_len: usize,
    truncate_left: bool,
) -> (r: Result<Encoded, SequenceError>)
    ensures
        match r {
            Ok(e) => is_fixed_row(*tok, *sp, q@, state_ids@, max_len, head_max_len, truncate_left, e),
            Err(SequenceError::OptionsTooLong(n)) => n == head_max_len && exists|whole: PartsV|
                #[trigger]
                tokens_of(*tok, sp.mask, sp.mask_token@, q@, whole) && !options_fit(
                    budgeted(whole, head_max_len),
                    max_len,
                ),
            Err(SequenceError::Tokenizer(m)) => refuses_question(*tok, sp.mask_token@, q@, m@),
        },
{
    match question_tokens(tok, sp, q, head_max_len) {
        Ok(p) => match sequence_row(sp, q.t, &p, state_ids, max_len, truncate_left) {
            Some(e) => Ok(e),
            None => Err(SequenceError::OptionsTooLong(head_max_len)),
        },
        Err(m) => Err(SequenceError::Tokenizer(m)),
    }
}

/// Whether `e` is a row of at most `max_len` tokens for `q`, question first.
pub open spec fn is_fixed_row(
    tok: tokenizers::Tokenizer,
    sp: Specials,
    q: QuestionV,
    state: Seq<u32>,
    max_len: usize,
    head_max_len: usize,
    truncate_left: bool,
    e: Encoded,
) -> bool {
    &&& e.qtype == q.t
    &&& e.prefix_len == 0
    &&& exists|whole: PartsV| #[trigger]
        tokens_of(tok, sp.mask, sp.mask_token@, q, whole) && ({
            let p = budgeted(whole, head_max_len);
            &&& options_fit(p, max_len)
            &&& e.ids@ == fixed_row(sp.cls, sp.sep, p, state, max_len, truncate_left)
            &&& ints(e.markers@) == marker_places(0, p.head.len(), p.opts)
        })
}

/// The shared start of rows with the state first: `[CLS] state [SEP]`, so long that any question
/// of at most `head_max_len` tokens fits behind it.
pub open spec fn state_prefix(
    cls: u32,
    sep: u32,
    state: Seq<u32>,
    max_len: nat,
    head_max_len: nat,
    truncate_left: bool,
) -> Seq<u32> {
    let room = if max_len > head_max_len + 5 {
        (max_len - head_max_len - 5) as nat
    } else {
        0
    };
    seq![cls] + kept_state(state, room, truncate_left) + seq![sep]
}

/// The shared start of rows opens with its token, closes with a separator, and has the state in
/// between: all of it when that leaves room for a question, and else as much of it as does, its end
/// when it is cut on the left and its start when it is cut on the right.
pub proof fn lemma_starts_keep_one_end_of_the_state(
    cls: u32,
    sep: u32,
    state: Seq<u32>,
    max_len: nat,
    head_max_len: nat,
    truncate_left: bool,
)
    requires
        max_len > head_max_len + 5,
    ensures
        ({
            let start = state_prefix(cls, sep, state, max_len, head_max_len, truncate_left);
            let room = max_len - head_max_len - 5;
            let inner = start.subrange(1, start.len() - 1);
            &&& start.len() >= 2
            &&& start[0] == cls
            &&& start.last() == sep
            &&& start.len() + head_max_len + 3 <= max_len
            &&& state.len() <= room ==> inner == state
            &&& state.len() > room ==> inner.len() == room
            &&& state.len() > room && truncate_left ==> inner == state.skip(state.len() - room)
            &&& state.len() > room && !truncate_left ==> inner == state.take(room)
        }),
{
    let start = state_prefix(cls, sep, state, max_len, head_max_len, truncate_left);
    let room = max_len - head_max_len - 5;
    let kept = kept_state(state, room as nat, truncate_left);
    lemma_cutting_keeps_one_end(state, room as nat, truncate_left);
    assert(start.subrange(1, start.len() - 1) =~= kept);
    if state.len() > room && truncate_left {
        assert(kept =~= state.skip(state.len() - room));
    }
    if state.len() > room && !truncate_left {
        assert(kept =~= state.take(room));
    }
}

/// The shared start of rows with the state first.
pub fn build_state_prefix(
    sp: &Specials,
    state_ids: &[u32],
    max_len: usize,
    head_max_len: usize,
    truncate_left: bool,
) -> (r: Vec<u32>)
    requires
        head_max_len + 5 <= usize::MAX,
    ensures
        r@ == state_prefix(
            sp.cls,
            sp.sep,
            state_ids@,
            max_len as nat,
            head_max_len as nat,
            truncate_left,
        ),
{
    let used: usize = head_max_len + 5;
    let room: usize = if max_len > used {
        max_len - used
    } else {
        0
    };
    let mut ids: Vec<u32> = Vec::new();
    ids.push(sp.cls);
    ids.extend_from_slice(truncate_state(state_ids, room, truncate_left));
    ids.push(sp.sep);
    proof {
        assert(ids@ =~= seq![sp.cls] + kept_state(state_ids@, room as nat, truncate_left) + seq![
            sp.sep,
        ]);
    }
    ids
}

/// Whether `e` is a row for `q` behind the shared start `prefix`.
pub open spec fn is_prefix_row(
    tok: tokenizers::Tokenizer,
    sp: Specials,
    q: QuestionV,
    prefix: Seq<u32>,
    head_max_len: usize,
    e: Encoded,
) -> bool {
    &&& e.qtype == q.t
    &&& e.prefix_len == prefix.len()
    &&& exists|whole: PartsV| #[trigger]
        tokens_of(tok, sp.mask, sp.mask_token@, q, whole) && ({
            let p = budgeted(whole, head_max_len);
            &&& e.ids@ == prefix + question_ids(sp.cls, sp.sep, p.head, p.opts)
            &&& ints(e.markers@) == marker_places(prefix.len(), p.head.len(), p.opts)
        })
}

/// A question's row behind a shared start: `[CLS] state [SEP] [CLS] head [SEP] [MASK] opt0 ...
/// [SEP]`.
pub fn build_prefix_sequence(
    tok: &tokenizers::Tokenizer,
    sp: &Specials,
    q: &Question,
    state_prefix: &[u32],
    head_max_len: usize,
) -> (r: Result<Encoded, SequenceError>)
    ensures
        match r {
            Ok(e) => is_prefix_row(*tok, *sp, q@, state_prefix@, head_max_len, e),
            Err(SequenceError::OptionsTooLong(_)) => false,
            Err(SequenceError::Tokenizer(m)) => refuses_question(*tok, sp.mask_token@, q@, m@),
        },
{
    match question_tokens(tok, sp, q, head_max_len) {
        Ok(p) => {
            let opts = borrow_runs(&p.opts);
            Ok(prefix_row(sp, q.t, p.head.as_slice(), opts.as_slice(), state_prefix))
        },
        Err(m) => Err(SequenceError::Tokenizer(m)),
    }
}

// ---------------------------------------------------------------------------------------------
// What texts the model reads

/// No text that a question or a state brings along holds the mask token, which marks the options:
/// not the state, not the instructions behind the question's type, not an option.
pub proof fn lemma_texts_bring_no_mask_tokens(
    q: QuestionV,
    state: JsonV,
    option: Seq<char>,
    mask_token: Seq<char>,
)
    requires
        mask_token.len() > 0,
        !mask_token.contains(' '),
    ensures
        !text::stands_in(state_text(state, mask_token), mask_token),
        state matches JsonV::String(s) ==> !text::stands_in(s, mask_token) ==> state_text(
            state,
            mask_token,
        ) == s,
        ({
            let h = head_text(q, mask_token);
            let start = q.t.label() + " question: "@;
            &&& text::begins(h, start)
            &&& !text::stands_in(h.skip(start.len() as int), mask_token)
            &&& !text::stands_in(q.ins, mask_token) ==> h == start + q.ins
        }),
        ({
            let o = option_text(option, mask_token);
            &&& o.len() > 0
            &&& o[0] == ' '
            &&& !text::stands_in(o.skip(1), mask_token)
            &&& !text::stands_in(option, mask_token) ==> o == " "@ + option
        }),
{
    reveal_strlit(" ");
    assert(" "@ =~= seq![' ']);
    text::lemma_nothing_is_left_of_what_is_replaced(criterion_text(state), mask_token);
    text::lemma_nothing_is_left_of_what_is_replaced(q.ins, mask_token);
    text::lemma_nothing_is_left_of_what_is_replaced(option, mask_token);
    let h = head_text(q, mask_token);
    let start = q.t.label() + " question: "@;
    assert(h.take(start.len() as int) =~= start);
    assert(h.skip(start.len() as int) =~= text::replaced(q.ins, mask_token, " "@));
    let o = option_text(option, mask_token);
    assert(o.skip(1) =~= text::replaced(option, mask_token, " "@));
}

/// Both sides of a `noul` question may be given labels, which are then their trimmed texts, each its
/// own; labels that are missing, empty or the same are refused.
pub proof fn lemma_labels_name_their_own_sides(
    m: Seq<(Seq<char>, JsonV)>,
    f: Seq<char>,
    t: Seq<char>,
)
    ensures
        labels_of(None) == Ok::<Option<(Seq<char>, Seq<char>)>, QuestionErrorV>(None),
        json::member(m, "false"@) == Some(JsonV::String(f)) && json::member(m, "true"@) == Some(
            JsonV::String(t),
        ) && m.len() == 2 && text::trimmed(f).len() > 0 && text::trimmed(t).len() > 0
            && text::trimmed(f) != text::trimmed(t) ==> labels_of(Some(JsonV::Object(m))) == Ok::<
            Option<(Seq<char>, Seq<char>)>,
            QuestionErrorV,
        >(Some((text::trimmed(f), text::trimmed(t)))),
        json::member(m, "false"@) is None || json::member(m, "true"@) is None || m.len() != 2
            ==> labels_of(Some(JsonV::Object(m))) is Err,
        labels_of(Some(JsonV::Object(m))) matches Ok(r) ==> {
            &&& r matches Some(l)
            &&& l.0 != l.1
            &&& l.0.len() > 0
            &&& l.1.len() > 0
        },
{
}

/// Parts that are cut to their budget keep their starts: each option at most its mask token and 48
/// others, the head at least its first eight; and what fits stays whole.
pub proof fn lemma_budgets_keep_the_starts(p: PartsV, head_max_len: usize, i: int)
    requires
        forall|k: int| 0 <= k < p.opts.len() ==> (#[trigger] p.opts[k]).len() >= 1,
    ensures
        ({
            let b = budgeted(p, head_max_len);
            let whole = forall|k: int|
                0 <= k < p.opts.len() ==> (#[trigger] p.opts[k]).len() <= 49;
            &&& b.opts.len() == p.opts.len()
            &&& 0 <= i < p.opts.len() ==> {
                &&& b.opts[i] == p.opts[i].take(b.opts[i].len() as int)
                &&& b.opts[i].len() <= p.opts[i].len()
                &&& b.opts[i].len() <= 49
            }
            &&& b.head == p.head.take(b.head.len() as int)
            &&& b.head.len() <= p.head.len()
            &&& p.head.len() <= 8 ==> b.head == p.head
            &&& p.head.len() >= 8 ==> b.head.len() >= 8
            &&& b.head.len() <= larger(8, signed(head_max_len) - flat(b.opts).len())
            &&& whole && signed(head_max_len) - flat(p.opts).len() >= 16 ==> b.opts == p.opts
            &&& whole && signed(head_max_len) - flat(p.opts).len() >= 16 && p.head.len() + flat(
                p.opts,
            ).len() <= signed(head_max_len) ==> b.head == p.head
        }),
{
    let b = budgeted(p, head_max_len);
    let first = cut_all(p.opts, 49);
    if 0 <= i < p.opts.len() {
        assert(p.opts[i].len() >= 1);
        assert(first[i] == cut(p.opts[i], 49));
        assert(b.opts[i] =~= p.opts[i].take(b.opts[i].len() as int));
    }
    assert(b.head =~= p.head.take(b.head.len() as int));
    if forall|k: int| 0 <= k < p.opts.len() ==> (#[trigger] p.opts[k]).len() <= 49 {
        assert forall|k: int| 0 <= k < p.opts.len() implies first[k] == p.opts[k] by {
            assert(p.opts[k].len() <= 49);
        }
        assert(first =~= p.opts);
    }
}

/// Instructions read as they are written: a text as it is, a truth value and nothing by their names.
pub proof fn lemma_instructions_read_as_they_are_written(s: Seq<char>, v: JsonV)
    ensures
        instruction_text(JsonV::String(s)) == s,
        instruction_text(JsonV::Bool(true)) == "True"@,
        instruction_text(JsonV::Bool(false)) == "False"@,
        instruction_text(JsonV::Null) == "None"@,
        v is Object || v is Array || v is Number ==> instruction_text(v) == json::written(
            v,
            ", "@,
            ": "@,
        ),
{
}

/// An ordinary length counts as it is.
pub proof fn lemma_ordinary_lengths_count(n: usize)
    ensures
        n <= isize::MAX ==> signed(n) == n,
        n > isize::MAX ==> signed(n) < 0,
{
}

/// Options that do not leave the head its room are cut to equal shares of what is left, of at least
/// four tokens.
pub proof fn lemma_options_share_what_is_left(p: PartsV, head_max_len: usize, i: int)
    requires
        0 <= i < p.opts.len(),
        16 <= head_max_len <= isize::MAX,
    ensures
        ({
            let b = budgeted(p, head_max_len);
            let share = (head_max_len - 16) / (p.opts.len() as int);
            head_max_len - flat(cut_all(p.opts, 49)).len() < 16 ==> b.opts[i].len() <= if share >= 4 {
                share
            } else {
                4
            }
        }),
{
}

/// Each type is known by its own name and no other.
pub proof fn lemma_types_are_known_by_name(s: Seq<char>, t: QType)
    ensures
        type_named(t.label()) == Some(t),
        type_named(s) == Some(t) ==> s == t.label(),
        QType::Choice.label() == "choice"@,
        QType::Score.label() == "score"@,
        QType::Noul.label() == "noul"@,
{
    reveal_strlit("choice");
    reveal_strlit("score");
    reveal_strlit("noul");
    assert("choice"@.len() == 6);
    assert("score"@.len() == 5);
    assert("noul"@.len() == 4);
}

} // verus!
