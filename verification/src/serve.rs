//! What the server answers: who may ask, which model is meant, which requests are refused, and
//! the bodies of all responses.

use vstd::prelude::*;
use vstd::string::*;

use crate::agent::{self, encode, legend, put_by_name, AnswerNumbers, NumbersV};
use crate::config::AgentConfig;
use crate::engine::{EngineConfig, EngineError, Stats};
use crate::float::{self, argmax};
use crate::json::{self, add_member, add_value, natural, string, Json, JsonV, NumV};
use crate::metrics::{self, label, Histogram, HttpMetrics};
use crate::model::Layout;
use crate::plan;
use crate::sequence::{
    self, Criteria, CriteriaV, Encoded, Question, QuestionV, SequenceError, Specials,
};
use crate::text::{self, decimal, holds, in_base, join, pad_zeros, same, strip_prefix, texts_push, trim};
use crate::validate::{
    self, body_loc, max_length, one_error, parse_system_one, path, validation_body, FieldError,
    FieldErrorV, RequestV, SystemOneRequest,
};

verus! {

broadcast use crate::json::lemma_tree;

/// The most tokens a request may read, unless the server is told otherwise.
pub const JEV_MAX_REQUEST_TOKENS: usize = 65_536;

/// The names that stand for the default model.
pub open spec fn aliases() -> Seq<Seq<char>> {
    seq!["jev-latest"@, "jev-preview"@]
}

fn is_alias(name: &str) -> (r: bool)
    ensures
        r == aliases().contains(name@),
{
    let r = same(name, "jev-latest") || same(name, "jev-preview");
    proof {
        assert(aliases()[0] == "jev-latest"@);
        assert(aliases()[1] == "jev-preview"@);
    }
    r
}

/// What the server is told.
pub struct ServeConfig {
    /// When set, requests need `Authorization: Bearer <key>`.
    pub api_key: Option<String>,
    /// Add the extra answer fields.
    pub extended: bool,
    /// Requests with more questions than this are refused.
    pub max_questions: Option<usize>,
    /// Requests that would read more tokens than this are refused.
    pub max_request_tokens: Option<usize>,
}

impl Default for ServeConfig {
    /// No key, no extra fields, and only the limit on tokens.
    fn default() -> (r: ServeConfig)
        ensures
            r.api_key is None,
            !r.extended,
            r.max_questions is None,
            r.max_request_tokens == Some(JEV_MAX_REQUEST_TOKENS),
    {
        ServeConfig {
            api_key: None,
            extended: false,
            max_questions: None,
            max_request_tokens: Some(JEV_MAX_REQUEST_TOKENS),
        }
    }
}

/// One model a server answers with.
pub struct ServedModel {
    /// The name that requests use and responses report.
    pub name: String,
    /// Other names it answers to.
    pub aliases: Vec<String>,
    pub description: String,
    /// `YYYY-MM-DD`.
    pub release_date: String,
}

/// The value of a served model.
#[verifier::ext_equal]
pub struct ModelV {
    pub name: Seq<char>,
    pub aliases: Seq<Seq<char>>,
    pub description: Seq<char>,
    pub release_date: Seq<char>,
}

impl View for ServedModel {
    type V = ModelV;

    open spec fn view(&self) -> ModelV {
        ModelV {
            name: self.name@,
            aliases: text::texts(self.aliases@),
            description: self.description@,
            release_date: self.release_date@,
        }
    }
}

/// The values of several models.
pub open spec fn model_values(v: Seq<ServedModel>) -> Seq<ModelV> {
    Seq::new(v.len(), |i: int| v[i]@)
}

/// A response: its status, its body, and a header besides the usual ones.
#[derive(Debug, PartialEq, Eq)]
pub struct Reply {
    pub status: u16,
    pub body: Json,
    pub header: Option<(&'static str, &'static str)>,
}

/// The value of a response.
#[verifier::ext_equal]
pub struct ReplyV {
    pub status: u16,
    pub body: JsonV,
    pub header: Option<(Seq<char>, Seq<char>)>,
}

impl View for Reply {
    type V = ReplyV;

    open spec fn view(&self) -> ReplyV {
        ReplyV {
            status: self.status,
            body: self.body@,
            header: match self.header {
                Some(h) => Some((h.0@, h.1@)),
                None => None,
            },
        }
    }
}

/// A response with a body and no further header.
pub open spec fn plain(status: u16, body: JsonV) -> ReplyV {
    ReplyV { status, body, header: None }
}

/// A body with one message.
pub open spec fn detail(message: Seq<char>) -> JsonV {
    JsonV::Object(seq![("detail"@, JsonV::String(message))])
}

fn detail_body(message: &str) -> (r: Json)
    ensures
        r@ == detail(message@),
{
    let mut o: Vec<(String, Json)> = Vec::new();
    add_member(&mut o, "detail", string(message));
    proof {
        assert(json::members(o@) =~= detail(message@)->Object_0);
    }
    Json::Object(o)
}

/// The response to a request with errors.
pub open spec fn refusal(errors: Seq<FieldErrorV>) -> ReplyV {
    plain(422, validate::fault_body(errors))
}

fn refuse(errors: Vec<FieldError>) -> (r: Reply)
    ensures
        r@ == refusal(validate::faults(errors@)),
{
    Reply { status: 422, body: validation_body(errors.as_slice()), header: None }
}

/// The response where there is nothing.
pub fn not_found() -> (r: Reply)
    ensures
        r@ == plain(404, detail("Not Found"@)),
{
    Reply { status: 404, body: detail_body("Not Found"), header: None }
}

/// The response to a method that a route does not have.
pub fn method_not_allowed() -> (r: Reply)
    ensures
        r@ == plain(405, detail("Method Not Allowed"@)),
{
    Reply { status: 405, body: detail_body("Method Not Allowed"), header: None }
}

/// The name a request path is counted under: known routes only, so that stray paths cannot grow
/// the set of labels.
pub open spec fn route_named(p: Seq<char>) -> Seq<char> {
    if p == "/v1/systemone"@ || p == "/v1/models"@ || p == "/health"@ || p == "/metrics"@ {
        p
    } else {
        "other"@
    }
}

/// The name a request path is counted under.
pub fn route_of(p: &str) -> (r: &'static str)
    ensures
        r@ == route_named(p@),
{
    if same(p, "/v1/systemone") {
        "/v1/systemone"
    } else if same(p, "/v1/models") {
        "/v1/models"
    } else if same(p, "/health") {
        "/health"
    } else if same(p, "/metrics") {
        "/metrics"
    } else {
        "other"
    }
}

/// The id of the `n`th request, so many microseconds after the start.
pub fn request_id(n: u64, micros: u64) -> (r: String)
    ensures
        r@ == "req_"@ + text::radix_text((micros % 0x1_0000_0000) as nat, 16) + text::zero_padded(
            text::radix_text(n as nat, 16),
            8,
        ),
{
    let mut r = "req_".to_owned();
    r.append(in_base(micros % 0x1_0000_0000, 16).as_str());
    r.append(pad_zeros(in_base(n, 16).as_str(), 8).as_str());
    r
}

// ---------------------------------------------------------------------------------------------
// Who may ask

/// Whether a request with this `Authorization` header may ask: any may when there is no key, else
/// one that bears the key.
pub open spec fn authorized(key: Option<Seq<char>>, header: Option<Seq<char>>) -> bool {
    match key {
        None => true,
        Some(k) => match header {
            Some(h) => text::begins(h, "Bearer "@) && text::trimmed(h.skip("Bearer "@.len() as int))
                == k,
            None => false,
        },
    }
}

/// The characters of an optional text.
pub open spec fn maybe_text(s: Option<String>) -> Option<Seq<char>> {
    match s {
        Some(s) => Some(s@),
        None => None,
    }
}

/// The characters of an optional borrowed text.
pub open spec fn maybe_chars(s: Option<&str>) -> Option<Seq<char>> {
    match s {
        Some(s) => Some(s@),
        None => None,
    }
}

/// The response to a request without the key.
pub open spec fn unauthorized() -> ReplyV {
    ReplyV {
        status: 401,
        body: detail("Not authenticated"@),
        header: Some(("www-authenticate"@, "Bearer"@)),
    }
}

/// The response to a request that may not ask; `None` when it may.
pub fn authorize(key: &Option<String>, header: Option<&str>) -> (r: Option<Reply>)
    ensures
        match r {
            None => authorized(maybe_text(*key), maybe_chars(header)),
            Some(reply) => !authorized(maybe_text(*key), maybe_chars(header)) && reply@
                == unauthorized(),
        },
{
    let ok = match key {
        None => true,
        Some(k) => match header {
            Some(h) => match strip_prefix(h, "Bearer ") {
                Some(rest) => same(trim(rest.as_str()).as_str(), k.as_str()),
                None => false,
            },
            None => false,
        },
    };
    if ok {
        None
    } else {
        Some(
            Reply {
                status: 401,
                body: detail_body("Not authenticated"),
                header: Some(("www-authenticate", "Bearer")),
            },
        )
    }
}

// ---------------------------------------------------------------------------------------------
// Which model is meant

/// Whether a model answers to a name.
pub open spec fn answers_to(m: ModelV, name: Seq<char>) -> bool {
    m.name == name || m.aliases.contains(name)
}

/// The first model that answers to a name, or the number of models.
pub open spec fn named(models: Seq<ModelV>, name: Seq<char>) -> int
    decreases models.len(),
{
    if models.len() == 0 || answers_to(models[0], name) {
        0
    } else {
        1 + named(models.skip(1), name)
    }
}

/// The names of several models.
pub open spec fn names(models: Seq<ModelV>) -> Seq<Seq<char>> {
    Seq::new(models.len(), |i: int| models[i].name)
}

/// What is wrong with a name that no model has.
pub open spec fn unknown_model(models: Seq<ModelV>, name: Seq<char>) -> FieldErrorV {
    validate::fault(
        validate::body_path("model"@),
        "value_error"@,
        "Value error, unknown model '"@ + name + "'; this server has: "@ + text::joined(
            names(models),
            ", "@,
        ),
    ).about(JsonV::String(name))
}

/// The model a name means: one that answers to it, or else the first for an alias of the default
/// and for any name when there is only one.
pub open spec fn picked(models: Seq<ModelV>, name: Seq<char>) -> Result<int, FieldErrorV> {
    let k = named(models, name);
    if k < models.len() {
        Ok(k)
    } else if models.len() == 1 || aliases().contains(name) {
        Ok(0)
    } else {
        Err(unknown_model(models, name))
    }
}

/// The names of several models, as a list.
fn list_names(models: &Vec<ServedModel>) -> (r: Vec<String>)
    ensures
        text::texts(r@) == names(model_values(models@)),
{
    let ghost all = names(model_values(models@));
    let mut r: Vec<String> = Vec::new();
    let mut i: usize = 0;
    proof {
        assert(text::texts(r@) =~= all.take(0));
    }
    while i < models.len()
        invariant
            i <= models@.len(),
            all == names(model_values(models@)),
            text::texts(r@) == all.take(i as int),
        decreases models@.len() - i,
    {
        texts_push(&mut r, models[i].name.clone());
        proof {
            assert(all.take(i + 1) =~= all.take(i as int).push(all[i as int]));
        }
        i += 1;
    }
    proof {
        assert(all.take(i as int) =~= all);
    }
    r
}

/// The model a name means.
pub fn pick(models: &Vec<ServedModel>, name: &str) -> (r: Result<usize, FieldError>)
    requires
        models@.len() > 0,
    ensures
        match r {
            Ok(k) => k < models@.len() && picked(model_values(models@), name@) == Ok::<
                int,
                FieldErrorV,
            >(k as int),
            Err(e) => picked(model_values(models@), name@) == Err::<int, FieldErrorV>(e@),
        },
{
    let ghost all = model_values(models@);
    let mut i: usize = 0;
    proof {
        assert(all.skip(0) =~= all);
    }
    while i < models.len()
        invariant
            i <= models@.len(),
            all == model_values(models@),
            named(all, name@) == i + named(all.skip(i as int), name@),
        decreases models@.len() - i,
    {
        proof {
            assert(all.skip(i as int)[0] == models@[i as int]@);
            assert(all.skip(i as int).skip(1) =~= all.skip(i + 1));
        }
        if same(models[i].name.as_str(), name) || holds(&models[i].aliases, name) {
            return Ok(i);
        }
        i += 1;
    }
    if models.len() == 1 || is_alias(name) {
        return Ok(0);
    }
    let mut msg = "Value error, unknown model '".to_owned();
    msg.append(name);
    msg.append("'; this server has: ");
    msg.append(join(&list_names(models), ", ").as_str());
    Err(FieldError::new(body_loc("model"), "value_error", msg).input(&string(name)))
}

/// A name that a model has means that model, or one before it that has the name too.
pub proof fn lemma_names_mean_their_models(models: Seq<ModelV>, name: Seq<char>, k: int)
    requires
        0 <= k < models.len(),
        answers_to(models[k], name),
    ensures
        picked(models, name) matches Ok(i) && 0 <= i <= k && answers_to(models[i], name),
{
    lemma_named(models, name, k);
}

/// A name that no model has means the first model when it is an alias of the default or when there
/// is only one model, and is refused otherwise.
pub proof fn lemma_other_names_mean_the_default(models: Seq<ModelV>, name: Seq<char>)
    requires
        models.len() > 0,
        forall|k: int| 0 <= k < models.len() ==> !answers_to(#[trigger] models[k], name),
    ensures
        picked(models, name) == (if models.len() == 1 || aliases().contains(name) {
            Ok::<int, FieldErrorV>(0)
        } else {
            Err(unknown_model(models, name))
        }),
{
    lemma_not_named(models, name);
}

proof fn lemma_not_named(models: Seq<ModelV>, name: Seq<char>)
    requires
        forall|k: int| 0 <= k < models.len() ==> !answers_to(#[trigger] models[k], name),
    ensures
        named(models, name) == models.len(),
    decreases models.len(),
{
    if models.len() > 0 {
        let rest = models.skip(1);
        assert forall|k: int| 0 <= k < rest.len() implies !answers_to(#[trigger] rest[k], name) by {
            assert(rest[k] == models[k + 1]);
        }
        lemma_not_named(rest, name);
    }
}

proof fn lemma_named(models: Seq<ModelV>, name: Seq<char>, k: int)
    requires
        0 <= k < models.len(),
        answers_to(models[k], name),
    ensures
        0 <= named(models, name) <= k,
        answers_to(models[named(models, name)], name),
    decreases models.len(),
{
    if !answers_to(models[0], name) {
        let rest = models.skip(1);
        assert(rest[k - 1] == models[k]);
        lemma_named(rest, name, k - 1);
        assert(rest[named(rest, name)] == models[named(models, name)]);
    }
}

// ---------------------------------------------------------------------------------------------
// Requests

/// What is wrong with a request of too many questions.
pub open spec fn too_many_questions(max: nat, n: nat) -> FieldErrorV {
    validate::fault(
        validate::body_path("questions"@),
        "too_long"@,
        "Dictionary should have at most "@ + text::dec(max) + " items after validation, not "@
            + text::dec(n),
    ).given(validate::greatest_length("Dictionary"@, max, n))
}

/// The model a request means and the request itself, or the response that refuses it.
pub open spec fn accepted(
    key: Option<Seq<char>>,
    max_questions: Option<usize>,
    models: Seq<ModelV>,
    header: Option<Seq<char>>,
    request: Result<RequestV, Seq<FieldErrorV>>,
) -> Result<(int, RequestV), ReplyV> {
    if !authorized(key, header) {
        Err(unauthorized())
    } else {
        match request {
            Err(errors) => Err(refusal(errors)),
            Ok(req) => match picked(models, req.model) {
                Err(e) => Err(refusal(seq![e])),
                Ok(k) => if max_questions is Some && req.questions.len() > max_questions->0 {
                    Err(
                        refusal(
                            seq![
                                too_many_questions(max_questions->0 as nat, req.questions.len()),
                            ],
                        ),
                    )
                } else {
                    Ok((k, req))
                },
            },
        }
    }
}

/// A request without the key is answered 401 whatever it holds, and any other that is refused is
/// answered 422; one that is accepted goes to a model that there is, with no more questions than
/// are allowed.
pub proof fn lemma_refused_requests_are_answered(
    key: Option<Seq<char>>,
    max_questions: Option<usize>,
    models: Seq<ModelV>,
    header: Option<Seq<char>>,
    request: Result<RequestV, Seq<FieldErrorV>>,
)
    requires
        models.len() > 0,
    ensures
        match accepted(key, max_questions, models, header, request) {
            Err(reply) => {
                &&& !authorized(key, header) <==> reply.status == 401
                &&& !authorized(key, header) ==> reply == unauthorized()
                &&& authorized(key, header) ==> reply.status == 422
            },
            Ok((k, req)) => {
                &&& authorized(key, header)
                &&& request == Ok::<RequestV, Seq<FieldErrorV>>(req)
                &&& 0 <= k < models.len()
                &&& max_questions is Some ==> req.questions.len() <= max_questions->0
            },
        },
{
    if request is Ok {
        lemma_named_within(models, request->Ok_0.model);
    }
}

proof fn lemma_named_within(models: Seq<ModelV>, name: Seq<char>)
    ensures
        0 <= named(models, name) <= models.len(),
    decreases models.len(),
{
    if models.len() > 0 {
        lemma_named_within(models.skip(1), name);
    }
}

/// The model a request means and the request itself, or the response that refuses it: without the
/// key, with errors in its body, for a model that there is not, or with too many questions.
pub fn open_request(
    cfg: &ServeConfig,
    models: &Vec<ServedModel>,
    header: Option<&str>,
    body: &[u8],
) -> (r: Result<(usize, SystemOneRequest), Reply>)
    requires
        models@.len() > 0,
    ensures
        ({
            let want = accepted(
                maybe_text(cfg.api_key),
                cfg.max_questions,
                model_values(models@),
                maybe_chars(header),
                validate::request_in(json::json_of(body@)),
            );
            match r {
                Ok((k, req)) => k < models@.len() && want == Ok::<(int, RequestV), ReplyV>(
                    (k as int, req@),
                ) && validate::distinct_ids(req@.questions),
                Err(reply) => want == Err::<(int, RequestV), ReplyV>(reply@),
            }
        }),
{
    match authorize(&cfg.api_key, header) {
        Some(reply) => return Err(reply),
        None => {},
    }
    let req = match parse_system_one(body) {
        Ok(req) => req,
        Err(errors) => return Err(refuse(errors)),
    };
    let k: usize = match pick(models, req.model.as_str()) {
        Ok(k) => k,
        Err(e) => return Err(refuse(one_error(e))),
    };
    match cfg.max_questions {
        Some(max) => {
            let n: usize = req.questions.len();
            if n > max {
                let mut msg = "Dictionary should have at most ".to_owned();
                msg.append(decimal(max as u64).as_str());
                msg.append(" items after validation, not ");
                msg.append(decimal(n as u64).as_str());
                let e = FieldError::new(body_loc("questions"), "too_long", msg);
                let e = e.ctx(max_length("Dictionary", max as u64, n as u64));
                return Err(refuse(one_error(e)));
            }
        },
        None => {},
    }
    Ok((k, req))
}

/// The question tokens of several rows: what comes behind their states.
pub open spec fn question_tokens(rows: Seq<Encoded>) -> nat
    decreases rows.len(),
{
    if rows.len() == 0 {
        0
    } else {
        question_tokens(rows.drop_last()) + (rows.last().ids@.len() - rows.last().prefix_len) as nat
    }
}

/// The tokens of several rows.
pub open spec fn all_tokens(rows: Seq<Encoded>) -> nat
    decreases rows.len(),
{
    if rows.len() == 0 {
        0
    } else {
        all_tokens(rows.drop_last()) + rows.last().ids@.len()
    }
}

/// Tokens the model reads for a request: the state once and each question's own when the state
/// comes first, or every row in full.
pub open spec fn tokens_read(rows: Seq<Encoded>) -> nat {
    if rows.len() > 0 && rows[0].prefix_len > 0 {
        rows[0].prefix_len as nat + question_tokens(rows)
    } else {
        all_tokens(rows)
    }
}

/// Tokens the model reads for a request, as far as a length can count.
pub fn input_tokens(rows: &[Encoded]) -> (n: usize)
    requires
        agent::starts_inside(rows@),
    ensures
        n == plan::counted(tokens_read(rows@)),
{
    let shared = rows.len() > 0 && rows[0].prefix_len > 0;
    let ghost start = if rows@.len() > 0 && rows@[0].prefix_len > 0 {
        rows@[0].prefix_len as nat
    } else {
        0
    };
    let mut n: usize = if shared {
        rows[0].prefix_len
    } else {
        0
    };
    let mut i: usize = 0;
    while i < rows.len()
        invariant
            i <= rows@.len(),
            agent::starts_inside(rows@),
            shared == (rows@.len() > 0 && rows@[0].prefix_len > 0),
            n == plan::counted(
                start + if shared {
                    question_tokens(rows@.take(i as int))
                } else {
                    all_tokens(rows@.take(i as int))
                },
            ),
        decreases rows@.len() - i,
    {
        proof {
            assert(rows@.take(i + 1).drop_last() =~= rows@.take(i as int));
            assert(rows@.take(i + 1).last() == rows@[i as int]);
            assert(rows@[i as int].prefix_len <= rows@[i as int].ids@.len());
        }
        let own: usize = if shared {
            rows[i].ids.len() - rows[i].prefix_len
        } else {
            rows[i].ids.len()
        };
        n = n.saturating_add(own);
        i += 1;
    }
    proof {
        assert(rows@.take(i as int) =~= rows@);
    }
    n
}

/// Whether rows start with the same state of `p` tokens.
pub open spec fn share_start(rows: Seq<Encoded>, p: nat) -> bool {
    forall|i: int|
        0 <= i < rows.len() ==> (#[trigger] rows[i]).prefix_len == p && p <= rows[i].ids@.len()
            && rows[i].ids@.take(p as int) == rows[0].ids@.take(p as int)
}

/// The tokens of rows behind their first `p`.
pub open spec fn tokens_behind(rows: Seq<Encoded>, p: nat) -> nat
    decreases rows.len(),
{
    if rows.len() == 0 {
        0
    } else {
        tokens_behind(rows.drop_last(), p) + (rows.last().ids@.len() - p) as nat
    }
}

/// The state that rows share is counted once, and each row's own tokens besides: so a request's
/// tokens are those of its rows, as a plan counts them. Without a shared state every row counts in
/// full.
pub proof fn lemma_a_shared_state_is_counted_once(rows: Seq<Encoded>, p: nat)
    requires
        share_start(rows, p),
    ensures
        tokens_read(rows) == plan::rows_total(plan::row_values(rows)),
        tokens_read(rows) == if rows.len() == 0 {
            0
        } else {
            p + tokens_behind(rows, p)
        },
        rows.len() > 0 && p > 0 ==> plan::last_prefix(plan::row_values(rows)) == Some(
            rows[0].ids@.take(p as int),
        ),
        p == 0 ==> plan::last_prefix(plan::row_values(rows)) is None,
    decreases rows.len(),
{
    let values = plan::row_values(rows);
    if rows.len() > 0 {
        let less = rows.drop_last();
        assert(share_start(less, p)) by {
            assert forall|i: int| 0 <= i < less.len() implies (#[trigger] less[i]).prefix_len == p
                && p <= less[i].ids@.len() && less[i].ids@.take(p as int) == less[0].ids@.take(
                p as int,
            ) by {
                assert(less[i] == rows[i]);
            }
        }
        lemma_a_shared_state_is_counted_once(less, p);
        assert(values.drop_last() =~= plan::row_values(less));
        let last = rows[rows.len() - 1];
        assert(last.prefix_len == p);
        assert(rows[0].prefix_len == p);
        assert(values.last() == plan::row_value(last));
        if less.len() > 0 {
            assert(less[0] == rows[0]);
        } else {
            assert(question_tokens(less) == 0);
            assert(all_tokens(less) == 0);
            assert(tokens_behind(less, p) == 0);
            assert(plan::row_values(less) =~= Seq::empty());
        }
    }
}

/// What is wrong with a request whose questions have no rows.
pub open spec fn no_rows(message: Seq<char>) -> FieldErrorV {
    validate::fault(seq![JsonV::String("body"@)], "value_error"@, message)
}

/// What is wrong with a request that reads too many tokens.
pub open spec fn too_many_tokens(max: nat, n: nat) -> FieldErrorV {
    validate::fault(
        seq![JsonV::String("body"@)],
        "value_error"@,
        "Value error, the request is "@ + text::dec(n) + " tokens, more than the limit of "@
            + text::dec(max),
    ).given(
        JsonV::Object(
            seq![
                ("max_tokens"@, JsonV::Number(NumV::Nat(max))),
                ("actual_tokens"@, JsonV::Number(NumV::Nat(n))),
            ],
        ),
    )
}

/// The tokens of rows when they are within the limit, or the response that refuses them.
pub open spec fn within_limit(max: Option<usize>, n: nat) -> Result<nat, ReplyV> {
    if max is Some && n > max->0 {
        Err(refusal(seq![too_many_tokens(max->0 as nat, n)]))
    } else {
        Ok(n)
    }
}

/// The tokens of rows when they are within the limit, or the response that refuses them.
pub fn check_tokens(max: Option<usize>, rows: &[Encoded]) -> (r: Result<usize, Reply>)
    requires
        agent::starts_inside(rows@),
    ensures
        match r {
            Ok(n) => within_limit(max, plan::counted(tokens_read(rows@))) == Ok::<nat, ReplyV>(
                n as nat,
            ),
            Err(reply) => within_limit(max, plan::counted(tokens_read(rows@))) == Err::<
                nat,
                ReplyV,
            >(reply@),
        },
{
    let n: usize = input_tokens(rows);
    match max {
        Some(max) => {
            if n > max {
                let mut msg = "Value error, the request is ".to_owned();
                msg.append(decimal(n as u64).as_str());
                msg.append(" tokens, more than the limit of ");
                msg.append(decimal(max as u64).as_str());
                let mut o: Vec<(String, Json)> = Vec::new();
                add_member(&mut o, "max_tokens", natural(max as u64));
                add_member(&mut o, "actual_tokens", natural(n as u64));
                let loc = path(&["body"]);
                proof {
                    assert(json::values(loc@) =~= seq![JsonV::String("body"@)]);
                    assert(json::members(o@) =~= seq![
                        ("max_tokens"@, JsonV::Number(NumV::Nat(max as nat))),
                        ("actual_tokens"@, JsonV::Number(NumV::Nat(n as nat))),
                    ]);
                }
                let e = FieldError::new(loc, "value_error", msg).ctx(Json::Object(o));
                return Err(refuse(one_error(e)));
            }
        },
        None => {},
    }
    Ok(n)
}

/// The questions of a request without their ids.
pub open spec fn asked(qs: Seq<(Seq<char>, QuestionV)>) -> Seq<QuestionV> {
    Seq::new(qs.len(), |i: int| qs[i].1)
}

/// The questions of a request, copied.
pub fn copy_questions(req: &SystemOneRequest) -> (r: Vec<Question>)
    ensures
        agent::question_values(r@) == asked(req@.questions),
{
    let mut r: Vec<Question> = Vec::new();
    let mut i: usize = 0;
    while i < req.questions.len()
        invariant
            i <= req.questions@.len(),
            r@.len() == i,
            forall|j: int| 0 <= j < i ==> (#[trigger] r@[j])@ == req.questions@[j].1@,
        decreases req.questions@.len() - i,
    {
        r.push(req.questions[i].1.copy());
        i += 1;
    }
    proof {
        assert(agent::question_values(r@) =~= asked(req@.questions));
    }
    r
}

/// Whether a response refuses a request because its state has no tokens, or else because of the
/// first question that has no row.
pub open spec fn refuses_rows(
    tok: tokenizers::Tokenizer,
    sp: Specials,
    cfg: AgentConfig,
    state: JsonV,
    qs: Seq<QuestionV>,
    reply: ReplyV,
) -> bool {
    exists|e: SequenceError| #[trigger]
        agent::lacks_rows(tok, sp, cfg, state, qs, e) && reply == refusal(
            seq![no_rows(e.words())],
        )
}

/// Whether `rows` ask the questions of a request, with tokens that the tokenizer has for it.
pub open spec fn rows_of(
    tok: tokenizers::Tokenizer,
    sp: Specials,
    model: AgentConfig,
    req: RequestV,
    rows: Seq<Encoded>,
) -> bool {
    exists|qs: Seq<Question>, ids: Seq<u32>|
        {
            &&& #[trigger] agent::question_values(qs) == asked(req.questions)
            &&& #[trigger] sequence::encodes(
                tok,
                sequence::state_text(req.state, sp.mask_token@),
                Ok(ids),
            )
            &&& agent::are_rows(tok, sp, model, qs, ids, agent::loses_start(req.state), rows)
        }
}

/// The rows of a request and the tokens they read, or the response that refuses it: when the
/// tokenizer refuses a text, when options do not fit a row, or when it reads too many tokens.
pub fn encode_request(
    cfg: &ServeConfig,
    tok: &tokenizers::Tokenizer,
    sp: &Specials,
    model: &AgentConfig,
    req: &SystemOneRequest,
) -> (r: Result<(Vec<Encoded>, usize), Reply>)
    requires
        model.layout == Layout::Prefix ==> model.head_max_len + 5 <= usize::MAX,
    ensures
        match r {
            Ok((rows, n)) => rows_of(*tok, *sp, *model, req@, rows@) && within_limit(
                cfg.max_request_tokens,
                plan::counted(tokens_read(rows@)),
            ) == Ok::<nat, ReplyV>(n as nat),
            Err(reply) => {
                ||| refuses_rows(*tok, *sp, *model, req@.state, asked(req@.questions), reply@)
                ||| exists|rows: Seq<Encoded>|
                    #[trigger] rows_of(*tok, *sp, *model, req@, rows) && within_limit(
                        cfg.max_request_tokens,
                        plan::counted(tokens_read(rows)),
                    ) == Err::<nat, ReplyV>(reply@)
            },
        },
{
    let questions = copy_questions(req);
    let ghost qs = asked(req@.questions);
    match encode(tok, sp, model, &req.state, questions.as_slice()) {
        Ok(rows) => {
            proof {
                lemma_starts_inside(*tok, *sp, *model, questions@, req@.state, rows@);
                assert(agent::question_values(questions@) == asked(req@.questions));
                assert(rows_of(*tok, *sp, *model, req@, rows@));
            }
            match check_tokens(cfg.max_request_tokens, rows.as_slice()) {
                Ok(n) => Ok((rows, n)),
                Err(reply) => Err(reply),
            }
        },
        Err(e) => {
            let msg = e.message();
            let ghost m = msg@;
            let loc = path(&["body"]);
            proof {
                assert(json::values(loc@) =~= seq![JsonV::String("body"@)]);
            }
            let reply = refuse(one_error(FieldError::new(loc, "value_error", msg)));
            proof {
                assert(reply@ == refusal(seq![no_rows(m)]));
                assert(agent::question_values(questions@) == qs);
                assert(agent::lacks_rows(*tok, *sp, *model, req@.state, qs, e));
                assert(refuses_rows(*tok, *sp, *model, req@.state, qs, reply@));
            }
            Err(reply)
        },
    }
}

/// The state of every row lies inside it.
proof fn lemma_starts_inside(
    tok: tokenizers::Tokenizer,
    sp: Specials,
    cfg: AgentConfig,
    qs: Seq<Question>,
    state: JsonV,
    rows: Seq<Encoded>,
)
    requires
        exists|ids: Seq<u32>|
            {
                &&& #[trigger] sequence::encodes(
                    tok,
                    sequence::state_text(state, sp.mask_token@),
                    Ok(ids),
                )
                &&& agent::are_rows(tok, sp, cfg, qs, ids, agent::loses_start(state), rows)
            },
    ensures
        agent::starts_inside(rows),
{
    let ids = choose|ids: Seq<u32>|
        {
            &&& #[trigger] sequence::encodes(
                tok,
                sequence::state_text(state, sp.mask_token@),
                Ok(ids),
            )
            &&& agent::are_rows(tok, sp, cfg, qs, ids, agent::loses_start(state), rows)
        };
    assert forall|i: int| 0 <= i < rows.len() implies (#[trigger] rows[i]).prefix_len
        <= rows[i].ids@.len() by {
        assert(agent::is_row(tok, sp, cfg, qs[i]@, ids, agent::loses_start(state), rows[i]));
        if cfg.layout == Layout::Prefix {
            agent::lemma_rows_share_the_state(
                tok,
                sp,
                cfg,
                qs,
                ids,
                agent::loses_start(state),
                rows,
                i,
                i,
            );
        }
    }
}

// ---------------------------------------------------------------------------------------------
// Answers

/// The answer to a question, as clients read it; `extended` adds the likeliest option's
/// probability and the probability to act.
pub open spec fn answered(q: QuestionV, p: Seq<u32>, n: NumbersV, extended: bool) -> JsonV {
    let probs = JsonV::Object(agent::by_name(q.keys(), n.probs));
    let base = match q.crit {
        CriteriaV::Choice(_) => seq![
            ("type"@, JsonV::String("choice"@)),
            ("choice"@, JsonV::String(q.keys()[float::peak(p)])),
            ("probabilities"@, probs),
            ("confidence"@, n.confidence),
        ],
        CriteriaV::Score(_) => seq![
            ("type"@, JsonV::String("score"@)),
            ("score"@, n.score),
            ("legend"@, JsonV::Object(agent::legend_of(q.crit))),
            ("probabilities"@, probs),
            ("confidence"@, n.confidence),
        ],
        CriteriaV::Noul(_, _) => seq![
            ("type"@, JsonV::String("noul"@)),
            ("noul"@, n.probs[1]),
        ],
    };
    JsonV::Object(
        if extended {
            base + seq![
                ("answer_confidence"@, n.probs[float::peak(p)]),
                ("act_probability"@, n.act),
            ]
        } else {
            base
        },
    )
}

/// The answer to a question, from its calibrated probabilities `p` and their numbers.
pub fn jev_answer(q: &Question, p: &Vec<u32>, n: &AnswerNumbers, extended: bool) -> (r: Json)
    requires
        agent::answerable(q@, p@, n@),
    ensures
        r@ == answered(q@, p@, n@, extended),
{
    let best: usize = argmax(p);
    let keys = q.option_keys();
    let mut o: Vec<(String, Json)> = Vec::new();
    proof {
        assert(text::texts(keys@)[best as int] == keys@[best as int]@);
        assert(n@.probs[best as int] == n.probs@[best as int]@);
    }
    match &q.crit {
        Criteria::Choice(_) => {
            add_member(&mut o, "type", string("choice"));
            add_member(&mut o, "choice", string(keys[best].as_str()));
            add_member(&mut o, "probabilities", Json::Object(put_by_name(&keys, &n.probs)));
            add_member(&mut o, "confidence", n.confidence.copy());
        },
        Criteria::Score(_) => {
            add_member(&mut o, "type", string("score"));
            add_member(&mut o, "score", n.score.copy());
            add_member(&mut o, "legend", Json::Object(legend(&q.crit)));
            add_member(&mut o, "probabilities", Json::Object(put_by_name(&keys, &n.probs)));
            add_member(&mut o, "confidence", n.confidence.copy());
        },
        Criteria::Noul { .. } => {
            proof {
                assert(n@.probs[1] == n.probs@[1]@);
            }
            add_member(&mut o, "type", string("noul"));
            add_member(&mut o, "noul", n.probs[1].copy());
        },
    }
    if extended {
        add_member(&mut o, "answer_confidence", n.probs[best].copy());
        add_member(&mut o, "act_probability", n.act.copy());
    }
    proof {
        assert(json::members(o@) =~= answered(q@, p@, n@, extended)->Object_0);
    }
    Json::Object(o)
}

/// A served answer says what the answer of a run says of the same numbers: the same type, and the
/// same under every name that both may have.
pub proof fn lemma_served_answers_agree(q: QuestionV, p: Seq<u32>, n: NumbersV, extended: bool)
    requires
        agent::answerable(q, p, n),
        q.t == sequence::QType::Choice <==> q.crit is Choice,
        q.t == sequence::QType::Score <==> q.crit is Score,
    ensures
        ({
            let served = answered(q, p, n, extended)->Object_0;
            let run = agent::decoded(q, p, n)->Object_0;
            &&& json::member(served, "type"@) == json::member(run, "type"@)
            &&& json::member(served, "choice"@) == json::member(run, "choice"@)
            &&& json::member(served, "score"@) == json::member(run, "score"@)
            &&& json::member(served, "legend"@) == json::member(run, "legend"@)
            &&& json::member(served, "probabilities"@) == json::member(run, "probabilities"@)
            &&& json::member(served, "noul"@) == json::member(run, "noul"@)
            &&& q.t != sequence::QType::Noul ==> json::member(served, "confidence"@) == json::member(
                run,
                "confidence"@,
            )
            &&& extended ==> json::member(served, "answer_confidence"@) == json::member(
                run,
                "answer_confidence"@,
            )
            &&& extended ==> json::member(served, "act_probability"@) == Some(n.act)
            &&& !extended ==> json::member(served, "answer_confidence"@) is None && json::member(
                served,
                "act_probability"@,
            ) is None
        }),
{
    agent::lemma_answer_names();
    let served = answered(q, p, n, extended)->Object_0;
    let run = agent::decoded(q, p, n)->Object_0;
    let end = served.len() as int;
    let over = run.len() as int;
    json::lemma_key_at_is(served, "type"@, 0);
    json::lemma_key_at_is(run, "type"@, 0);
    let (a, b, c, d, e, f): (int, int, int, int, int, int) = match q.t {
        sequence::QType::Choice => (1, end, end, 2, end, 3),
        sequence::QType::Score => (end, 1, 2, 3, end, 4),
        sequence::QType::Noul => (end, end, end, end, 1, end),
    };
    json::lemma_key_at_is(served, "choice"@, a);
    json::lemma_key_at_is(served, "score"@, b);
    json::lemma_key_at_is(served, "legend"@, c);
    json::lemma_key_at_is(served, "probabilities"@, d);
    json::lemma_key_at_is(served, "noul"@, e);
    json::lemma_key_at_is(served, "confidence"@, f);
    let (a, b, c, d, e, f): (int, int, int, int, int, int) = match q.t {
        sequence::QType::Choice => (1, over, over, 2, over, 3),
        sequence::QType::Score => (over, 1, 2, 3, over, 4),
        sequence::QType::Noul => (over, over, over, over, 1, 2),
    };
    json::lemma_key_at_is(run, "choice"@, a);
    json::lemma_key_at_is(run, "score"@, b);
    json::lemma_key_at_is(run, "legend"@, c);
    json::lemma_key_at_is(run, "probabilities"@, d);
    json::lemma_key_at_is(run, "noul"@, e);
    json::lemma_key_at_is(run, "confidence"@, f);
    json::lemma_key_at_is(run, "answer_confidence"@, f + 1);
    json::lemma_key_at_is(
        served,
        "answer_confidence"@,
        if extended {
            end - 2
        } else {
            end
        },
    );
    json::lemma_key_at_is(
        served,
        "act_probability"@,
        if extended {
            end - 1
        } else {
            end
        },
    );
}

/// The served answer to a score question gives the expected level that was computed for it, to a
/// `noul` the probability of the option `true`, and to a choice the name of the likeliest option;
/// and every option of a choice or a score has its own probability.
pub proof fn lemma_served_answers_tell_what_was_asked(
    q: QuestionV,
    p: Seq<u32>,
    n: NumbersV,
    extended: bool,
    i: int,
)
    requires
        agent::answerable(q, p, n),
        0 <= i < p.len(),
    ensures
        answered(q, p, n, extended) is Object,
        ({
            let o = answered(q, p, n, extended)->Object_0;
            &&& q.crit is Score ==> {
                &&& json::member(o, "type"@) == Some(JsonV::String("score"@))
                &&& json::member(o, "score"@) == Some(n.score)
                &&& json::member(o, "legend"@) matches Some(JsonV::Object(m))
                &&& m.len() == p.len()
                &&& m[i] == (q.keys()[i], q.crit->Score_0[i])
            }
            &&& q.crit is Noul ==> {
                &&& json::member(o, "type"@) == Some(JsonV::String("noul"@))
                &&& q.keys()[i] == "true"@ ==> json::member(o, "noul"@) == Some(n.probs[i])
            }
            &&& q.crit is Choice ==> {
                &&& json::member(o, "type"@) == Some(JsonV::String("choice"@))
                &&& agent::is_likeliest(p, i) ==> json::member(o, "choice"@) == Some(
                    JsonV::String(q.crit->Choice_0[i].0),
                )
            }
            &&& !(q.crit is Noul) ==> json::member(o, "confidence"@) == Some(n.confidence)
            &&& extended && agent::is_likeliest(p, i) ==> json::member(o, "answer_confidence"@)
                == Some(n.probs[i])
        }),
        ({
            let o = answered(q, p, n, extended)->Object_0;
            !(q.crit is Noul) && agent::distinct_keys(q) ==> {
                &&& json::member(o, "probabilities"@) matches Some(JsonV::Object(m))
                &&& m.len() == p.len()
                &&& m[i] == (q.keys()[i], n.probs[i])
                &&& json::member(m, q.keys()[i]) == Some(n.probs[i])
            }
        }),
{
    agent::lemma_answer_names();
    let o = answered(q, p, n, extended)->Object_0;
    json::lemma_key_at_is(o, "type"@, 0);
    if agent::is_likeliest(p, i) {
        agent::lemma_likeliest(p, i);
    }
    if agent::distinct_keys(q) {
        agent::lemma_value_by_name(q.keys(), n.probs, i);
    }
    match q.crit {
        CriteriaV::Choice(_) => {
            json::lemma_key_at_is(o, "choice"@, 1);
            json::lemma_key_at_is(o, "probabilities"@, 2);
            json::lemma_key_at_is(o, "confidence"@, 3);
        },
        CriteriaV::Score(_) => {
            json::lemma_key_at_is(o, "score"@, 1);
            json::lemma_key_at_is(o, "legend"@, 2);
            json::lemma_key_at_is(o, "probabilities"@, 3);
            json::lemma_key_at_is(o, "confidence"@, 4);
        },
        CriteriaV::Noul(_, _) => {
            json::lemma_key_at_is(o, "noul"@, 1);
        },
    }
    if extended {
        json::lemma_key_at_is(o, "answer_confidence"@, o.len() - 2);
    }
}

/// The response with the answers.
pub open spec fn answer_response(
    model: Seq<char>,
    ids: Seq<Seq<char>>,
    answers: Seq<JsonV>,
    tokens: nat,
) -> ReplyV {
    plain(
        200,
        JsonV::Object(
            seq![
                ("model"@, JsonV::String(model)),
                ("answers"@, JsonV::Object(agent::by_name(ids, answers))),
                (
                    "usage"@,
                    JsonV::Object(
                        seq![
                            ("input_tokens"@, JsonV::Number(NumV::Nat(tokens))),
                            ("output_tokens"@, JsonV::Number(NumV::Nat(0))),
                        ],
                    ),
                ),
            ],
        ),
    )
}

/// The response with the answers, in the order of the questions.
pub fn answer_reply(model: &str, ids: &Vec<String>, answers: &Vec<Json>, tokens: usize) -> (r: Reply)
    requires
        ids@.len() == answers@.len(),
    ensures
        r@ == answer_response(
            model@,
            text::texts(ids@),
            json::values(answers@),
            tokens as nat,
        ),
{
    let mut usage: Vec<(String, Json)> = Vec::new();
    add_member(&mut usage, "input_tokens", natural(tokens as u64));
    add_member(&mut usage, "output_tokens", natural(0));
    proof {
        assert(json::members(usage@) =~= seq![
            ("input_tokens"@, JsonV::Number(NumV::Nat(tokens as nat))),
            ("output_tokens"@, JsonV::Number(NumV::Nat(0))),
        ]);
    }
    let mut o: Vec<(String, Json)> = Vec::new();
    add_member(&mut o, "model", string(model));
    add_member(&mut o, "answers", Json::Object(put_by_name(ids, answers)));
    add_member(&mut o, "usage", Json::Object(usage));
    proof {
        assert(json::members(o@) =~= answer_response(
            model@,
            text::texts(ids@),
            json::values(answers@),
            tokens as nat,
        ).body->Object_0);
    }
    Reply { status: 200, body: Json::Object(o), header: None }
}

/// The ids of a request's questions.
pub open spec fn ids(qs: Seq<(Seq<char>, QuestionV)>) -> Seq<Seq<char>> {
    Seq::new(qs.len(), |i: int| qs[i].0)
}

/// An accepted request's answers stand under its ids, in its order, one each.
pub proof fn lemma_answers_follow_the_questions(
    model: Seq<char>,
    qs: Seq<(Seq<char>, QuestionV)>,
    answers: Seq<JsonV>,
    tokens: nat,
)
    requires
        validate::distinct_ids(qs),
        answers.len() == qs.len(),
    ensures
        json::member(
            answer_response(model, ids(qs), answers, tokens).body->Object_0,
            "answers"@,
        ) == Some(JsonV::Object(Seq::new(qs.len(), |i: int| (qs[i].0, answers[i])))),
{
    assert forall|i: int, j: int| 0 <= i < j < ids(qs).len() implies ids(qs)[i] != ids(qs)[j] by {
        assert(qs[i].0 != qs[j].0);
    }
    agent::lemma_by_name(ids(qs), answers);
    assert(Seq::new(ids(qs).len(), |i: int| (ids(qs)[i], answers[i])) =~= Seq::new(
        qs.len(),
        |i: int| (qs[i].0, answers[i]),
    ));
    reveal_strlit("model");
    reveal_strlit("answers");
    let o = answer_response(model, ids(qs), answers, tokens).body->Object_0;
    assert("model"@.len() == 5 && "answers"@.len() == 7);
    json::lemma_key_at_is(o, "answers"@, 1);
}

/// The response when a request has no outputs.
pub open spec fn failed(e: EngineError) -> ReplyV {
    match e {
        EngineError::Overloaded => ReplyV {
            status: 529,
            body: detail("Overloaded: too many queued requests"@),
            header: Some(("retry-after"@, "1"@)),
        },
        EngineError::Failed(m) => plain(500, detail(m@)),
    }
}

/// The response when a request has no outputs.
pub fn failure_reply(e: &EngineError) -> (r: Reply)
    ensures
        r@ == failed(*e),
{
    match e {
        EngineError::Overloaded => Reply {
            status: 529,
            body: detail_body("Overloaded: too many queued requests"),
            header: Some(("retry-after", "1")),
        },
        EngineError::Failed(m) => Reply { status: 500, body: detail_body(m.as_str()), header: None },
    }
}

/// The response when a request took longer than the time it has, given in seconds as text.
pub fn timeout_reply(seconds: &str) -> (r: Reply)
    ensures
        r@ == plain(504, detail("Timed out after "@ + seconds@ + " s"@)),
{
    let mut m = "Timed out after ".to_owned();
    m.append(seconds);
    m.append(" s");
    Reply { status: 504, body: detail_body(m.as_str()), header: None }
}

// ---------------------------------------------------------------------------------------------
// Listings

/// A name with the model it stands for.
pub open spec fn listing(name: Seq<char>, m: ModelV) -> JsonV {
    JsonV::Object(
        seq![
            ("name"@, JsonV::String(name)),
            ("description"@, JsonV::String(m.description)),
            ("release_date"@, JsonV::String(m.release_date)),
        ],
    )
}

/// Every name that is listed, with the model it stands for: each model's name and aliases, then
/// the aliases of the default. A name may occur again.
pub open spec fn candidates(models: Seq<ModelV>) -> Seq<(Seq<char>, int)> {
    own_names(models, models.len()) + Seq::new(aliases().len(), |i: int| (aliases()[i], 0int))
}

/// The names and aliases of the first `n` models.
pub open spec fn own_names(models: Seq<ModelV>, n: nat) -> Seq<(Seq<char>, int)>
    decreases n,
{
    if n == 0 {
        Seq::empty()
    } else {
        let m = models[n - 1];
        own_names(models, (n - 1) as nat).push((m.name, n - 1)) + Seq::new(
            m.aliases.len(),
            |i: int| (m.aliases[i], n - 1),
        )
    }
}

/// Whether a name occurs.
pub open spec fn occurs(v: Seq<(Seq<char>, int)>, name: Seq<char>) -> bool {
    exists|i: int| 0 <= i < v.len() && (#[trigger] v[i]).0 == name
}

/// The listings of names, each where it first occurs.
pub open spec fn listings(v: Seq<(Seq<char>, int)>, models: Seq<ModelV>) -> Seq<JsonV>
    decreases v.len(),
{
    if v.len() == 0 {
        Seq::empty()
    } else {
        let before = listings(v.drop_last(), models);
        if occurs(v.drop_last(), v.last().0) {
            before
        } else {
            before.push(listing(v.last().0, models[v.last().1]))
        }
    }
}

fn list_model(name: &str, m: &ServedModel) -> (r: Json)
    ensures
        r@ == listing(name@, m@),
{
    let mut o: Vec<(String, Json)> = Vec::new();
    add_member(&mut o, "name", string(name));
    add_member(&mut o, "description", string(m.description.as_str()));
    add_member(&mut o, "release_date", string(m.release_date.as_str()));
    proof {
        assert(json::members(o@) =~= listing(name@, m@)->Object_0);
    }
    Json::Object(o)
}

/// The names listed so far, and their listings.
struct Listed {
    seen: Vec<String>,
    entries: Vec<Json>,
}

impl Listed {
    spec fn lists(self, v: Seq<(Seq<char>, int)>, models: Seq<ModelV>) -> bool {
        &&& json::values(self.entries@) == listings(v, models)
        &&& forall|name: Seq<char>|
            #[trigger] text::texts(self.seen@).contains(name) <==> occurs(v, name)
    }
}

fn add_listing(
    l: &mut Listed,
    name: &str,
    k: usize,
    models: &Vec<ServedModel>,
    Ghost(v): Ghost<Seq<(Seq<char>, int)>>,
)
    requires
        k < models@.len(),
        old(l).lists(v, model_values(models@)),
    ensures
        final(l).lists(v.push((name@, k as int)), model_values(models@)),
{
    let ghost all = v.push((name@, k as int));
    let ghost before = text::texts(l.seen@);
    proof {
        assert(all.drop_last() =~= v);
    }
    if !holds(&l.seen, name) {
        texts_push(&mut l.seen, name.to_owned());
        let entry = list_model(name, &models[k]);
        add_value(&mut l.entries, entry);
    }
    proof {
        let after = text::texts(l.seen@);
        assert forall|other: Seq<char>| #[trigger] after.contains(other) <==> occurs(
            all,
            other,
        ) by {
            if occurs(v, other) {
                let i = choose|i: int| 0 <= i < v.len() && (#[trigger] v[i]).0 == other;
                assert(all[i].0 == other);
                assert(before.contains(other));
                let j = choose|j: int| 0 <= j < before.len() && before[j] == other;
                assert(after[j] == other);
            }
            if other == name@ {
                assert(all[v.len() as int].0 == other);
                assert(after.contains(other)) by {
                    if before.contains(name@) {
                    } else {
                        assert(after[before.len() as int] == name@);
                    }
                }
            }
            if occurs(all, other) && other != name@ {
                let i = choose|i: int| 0 <= i < all.len() && (#[trigger] all[i]).0 == other;
                assert(v[i].0 == other);
            }
            if after.contains(other) && other != name@ {
                let j = choose|j: int| 0 <= j < after.len() && after[j] == other;
                assert(before[j] == other);
                assert(before.contains(other));
            }
        }
    }
}

/// The response that lists the models: every name once, with the model it stands for.
pub fn models_reply(models: &Vec<ServedModel>) -> (r: Reply)
    requires
        models@.len() > 0,
    ensures
        r@ == plain(
            200,
            JsonV::Object(
                seq![
                    (
                        "models"@,
                        JsonV::Array(
                            listings(
                                candidates(model_values(models@)),
                                model_values(models@),
                            ),
                        ),
                    ),
                ],
            ),
        ),
{
    let ghost ms = model_values(models@);
    let mut l = Listed { seen: Vec::new(), entries: Vec::new() };
    proof {
        assert(json::values(l.entries@) =~= Seq::empty());
        assert(text::texts(l.seen@) =~= Seq::empty());
    }
    let mut k: usize = 0;
    while k < models.len()
        invariant
            k <= models@.len(),
            ms == model_values(models@),
            l.lists(own_names(ms, k as nat), ms),
        decreases models@.len() - k,
    {
        let ghost done = own_names(ms, k as nat);
        let ghost m = ms[k as int];
        add_listing(&mut l, models[k].name.as_str(), k, models, Ghost(done));
        let ghost named = done.push((m.name, k as int));
        let ghost more = Seq::new(m.aliases.len(), |i: int| (m.aliases[i], k as int));
        let mut i: usize = 0;
        proof {
            assert(named + more.take(0) =~= named);
        }
        while i < models[k].aliases.len()
            invariant
                k < models@.len(),
                i <= models@[k as int].aliases@.len(),
                ms == model_values(models@),
                m == ms[k as int],
                more == Seq::new(m.aliases.len(), |i: int| (m.aliases[i], k as int)),
                l.lists(named + more.take(i as int), ms),
            decreases models@[k as int].aliases@.len() - i,
        {
            let ghost sofar = named + more.take(i as int);
            add_listing(&mut l, models[k].aliases[i].as_str(), k, models, Ghost(sofar));
            proof {
                assert(m.aliases[i as int] == models@[k as int].aliases@[i as int]@);
                assert(sofar.push(more[i as int]) =~= named + more.take(i + 1));
            }
            i += 1;
        }
        proof {
            assert(more.take(i as int) =~= more);
            assert(own_names(ms, (k + 1) as nat) =~= named + more);
        }
        k += 1;
    }
    let ghost own = own_names(ms, ms.len());
    add_listing(&mut l, "jev-latest", 0, models, Ghost(own));
    let ghost first = own.push(("jev-latest"@, 0));
    add_listing(&mut l, "jev-preview", 0, models, Ghost(first));
    proof {
        assert(first.push(("jev-preview"@, 0)) =~= candidates(ms));
    }
    let mut o: Vec<(String, Json)> = Vec::new();
    add_member(&mut o, "models", Json::Array(l.entries));
    proof {
        assert(json::members(o@) =~= seq![
            ("models"@, JsonV::Array(listings(candidates(ms), ms))),
        ]);
    }
    Reply { status: 200, body: Json::Object(o), header: None }
}

/// The layout's name.
pub open spec fn layout_text(l: Layout) -> Seq<char> {
    match l {
        Layout::Laya => "laya"@,
        Layout::Prefix => "prefix"@,
    }
}

/// The layout's name.
pub fn layout_name(l: Layout) -> (r: &'static str)
    ensures
        r@ == layout_text(l),
{
    match l {
        Layout::Laya => "laya",
        Layout::Prefix => "prefix",
    }
}

/// How a model is doing.
pub struct ModelStatus {
    pub name: String,
    pub aliases: Vec<String>,
    pub layout: Layout,
    pub config: EngineConfig,
    /// Requests waiting for a worker.
    pub queued: usize,
    pub stats: Stats,
}

/// The texts as JSON strings.
pub open spec fn strings(v: Seq<Seq<char>>) -> Seq<JsonV> {
    Seq::new(v.len(), |i: int| JsonV::String(v[i]))
}

/// How a model is doing, in short.
pub open spec fn status_of(m: ModelStatus) -> JsonV {
    JsonV::Object(
        seq![
            ("name"@, JsonV::String(m.name@)),
            ("aliases"@, JsonV::Array(strings(text::texts(m.aliases@)))),
            ("layout"@, JsonV::String(layout_text(m.layout))),
            ("requests"@, JsonV::Number(NumV::Nat(m.stats.requests as nat))),
            ("queued"@, JsonV::Number(NumV::Nat(m.queued as nat))),
        ],
    )
}

/// How the server is doing: the default model in full, and each model in short. The time that
/// workers wait is given in milliseconds.
pub open spec fn health_of(models: Seq<ModelStatus>, wait_ms: JsonV) -> JsonV {
    let m = models[0];
    JsonV::Object(
        seq![
            ("status"@, JsonV::String("ok"@)),
            ("model"@, JsonV::String(m.name@)),
            ("layout"@, JsonV::String(layout_text(m.layout))),
            ("workers"@, JsonV::Number(NumV::Nat(m.config.workers as nat))),
            (
                "threads_per_worker"@,
                JsonV::Number(NumV::Nat(m.config.threads_per_worker as nat)),
            ),
            ("adaptive"@, JsonV::Bool(m.config.adaptive)),
            ("max_batch_rows"@, JsonV::Number(NumV::Nat(m.config.max_batch_rows as nat))),
            ("batch_wait_ms"@, wait_ms),
            ("requests"@, JsonV::Number(NumV::Nat(m.stats.requests as nat))),
            ("batches"@, JsonV::Number(NumV::Nat(m.stats.batches as nat))),
            ("rows"@, JsonV::Number(NumV::Nat(m.stats.rows as nat))),
            ("models"@, JsonV::Array(Seq::new(models.len(), |i: int| status_of(models[i])))),
        ],
    )
}

fn list_strings(v: &Vec<String>) -> (r: Vec<Json>)
    ensures
        json::values(r@) == strings(text::texts(v@)),
{
    let ghost all = strings(text::texts(v@));
    let mut r: Vec<Json> = Vec::new();
    let mut i: usize = 0;
    proof {
        assert(json::values(r@) =~= all.take(0));
    }
    while i < v.len()
        invariant
            i <= v@.len(),
            all == strings(text::texts(v@)),
            json::values(r@) == all.take(i as int),
        decreases v@.len() - i,
    {
        add_value(&mut r, string(v[i].as_str()));
        proof {
            assert(all.take(i + 1) =~= all.take(i as int).push(all[i as int]));
        }
        i += 1;
    }
    proof {
        assert(all.take(i as int) =~= all);
    }
    r
}

fn model_status(m: &ModelStatus) -> (r: Json)
    ensures
        r@ == status_of(*m),
{
    let mut o: Vec<(String, Json)> = Vec::new();
    add_member(&mut o, "name", string(m.name.as_str()));
    add_member(&mut o, "aliases", Json::Array(list_strings(&m.aliases)));
    add_member(&mut o, "layout", string(layout_name(m.layout)));
    add_member(&mut o, "requests", natural(m.stats.requests));
    add_member(&mut o, "queued", natural(m.queued as u64));
    proof {
        assert(json::members(o@) =~= status_of(*m)->Object_0);
    }
    Json::Object(o)
}

/// The response that tells how the server is doing.
pub fn health_reply(models: &Vec<ModelStatus>, wait_ms: Json) -> (r: Reply)
    requires
        models@.len() > 0,
    ensures
        r@ == plain(200, health_of(models@, wait_ms@)),
{
    let ghost all = Seq::new(models@.len(), |i: int| status_of(models@[i]));
    let mut list: Vec<Json> = Vec::new();
    let mut i: usize = 0;
    proof {
        assert(json::values(list@) =~= all.take(0));
    }
    while i < models.len()
        invariant
            i <= models@.len(),
            all == Seq::new(models@.len(), |i: int| status_of(models@[i])),
            json::values(list@) == all.take(i as int),
        decreases models@.len() - i,
    {
        add_value(&mut list, model_status(&models[i]));
        proof {
            assert(all.take(i + 1) =~= all.take(i as int).push(all[i as int]));
        }
        i += 1;
    }
    proof {
        assert(all.take(i as int) =~= all);
    }
    let m = &models[0];
    let mut o: Vec<(String, Json)> = Vec::new();
    add_member(&mut o, "status", string("ok"));
    add_member(&mut o, "model", string(m.name.as_str()));
    add_member(&mut o, "layout", string(layout_name(m.layout)));
    add_member(&mut o, "workers", natural(m.config.workers as u64));
    add_member(&mut o, "threads_per_worker", natural(m.config.threads_per_worker as u64));
    add_member(&mut o, "adaptive", Json::Bool(m.config.adaptive));
    add_member(&mut o, "max_batch_rows", natural(m.config.max_batch_rows as u64));
    add_member(&mut o, "batch_wait_ms", wait_ms);
    add_member(&mut o, "requests", natural(m.stats.requests));
    add_member(&mut o, "batches", natural(m.stats.batches));
    add_member(&mut o, "rows", natural(m.stats.rows));
    add_member(&mut o, "models", Json::Array(list));
    proof {
        assert(json::members(o@) =~= health_of(models@, wait_ms@)->Object_0);
    }
    Reply { status: 200, body: Json::Object(o), header: None }
}

// ---------------------------------------------------------------------------------------------
// Metrics

/// The two lines that introduce a metric.
pub open spec fn intro(name: Seq<char>, help: Seq<char>, kind: Seq<char>) -> Seq<char> {
    "# HELP "@ + name + " "@ + help + "\n# TYPE "@ + name + " "@ + kind + "\n"@
}

fn write_intro(out: &mut String, name: &str, help: &str, kind: &str)
    ensures
        final(out)@ == old(out)@ + intro(name@, help@, kind@),
{
    let mut t = "# HELP ".to_owned();
    t.append(name);
    t.append(" ");
    t.append(help);
    t.append("\n# TYPE ");
    t.append(name);
    t.append(" ");
    t.append(kind);
    t.append("\n");
    out.append(t.as_str());
}

/// What is counted of each model.
#[derive(Clone, Copy, PartialEq, Eq, Structural, Debug)]
pub enum Reading {
    QueueDepth,
    Workers,
    Requests,
    Passes,
    Rows,
    Questions,
    InputTokens,
}

impl Reading {
    /// The metric's name.
    pub open spec fn title(self) -> Seq<char> {
        match self {
            Reading::QueueDepth => "candle_rlcd_queue_depth"@,
            Reading::Workers => "candle_rlcd_workers"@,
            Reading::Requests => "candle_rlcd_requests_total"@,
            Reading::Passes => "candle_rlcd_forward_passes_total"@,
            Reading::Rows => "candle_rlcd_rows_total"@,
            Reading::Questions => "candle_rlcd_questions_total"@,
            Reading::InputTokens => "candle_rlcd_input_tokens_total"@,
        }
    }

    /// What the metric counts.
    pub open spec fn meaning(self) -> Seq<char> {
        match self {
            Reading::QueueDepth => "Requests waiting for an inference worker."@,
            Reading::Workers => "Inference worker threads."@,
            Reading::Requests => "Requests run through the model."@,
            Reading::Passes => "Forward passes (a batch of one or more requests)."@,
            Reading::Rows => "Question rows run through the encoder."@,
            Reading::Questions => "Questions answered."@,
            Reading::InputTokens => "Tokens read by the model (usage.input_tokens)."@,
        }
    }

    /// Whether the metric can fall.
    pub open spec fn sort(self) -> Seq<char> {
        match self {
            Reading::QueueDepth | Reading::Workers => "gauge"@,
            _ => "counter"@,
        }
    }

    /// What the metric is for a model.
    pub open spec fn of(self, m: ModelStatus) -> nat {
        match self {
            Reading::QueueDepth => m.queued as nat,
            Reading::Workers => m.config.workers as nat,
            Reading::Requests => m.stats.requests as nat,
            Reading::Passes => m.stats.batches as nat,
            Reading::Rows => m.stats.rows as nat,
            Reading::Questions => m.stats.questions as nat,
            Reading::InputTokens => m.stats.input_tokens as nat,
        }
    }

    fn read(self, m: &ModelStatus) -> (n: u64)
        ensures
            n == self.of(*m),
    {
        match self {
            Reading::QueueDepth => m.queued as u64,
            Reading::Workers => m.config.workers as u64,
            Reading::Requests => m.stats.requests,
            Reading::Passes => m.stats.batches,
            Reading::Rows => m.stats.rows,
            Reading::Questions => m.stats.questions,
            Reading::InputTokens => m.stats.input_tokens,
        }
    }
}

/// The lines of a metric for the first `n` models.
pub open spec fn reading_lines(r: Reading, models: Seq<ModelStatus>, n: nat) -> Seq<char>
    decreases n,
{
    if n == 0 {
        Seq::empty()
    } else {
        let m = models[n - 1];
        reading_lines(r, models, (n - 1) as nat) + (r.title() + "{model=\""@ + metrics::label_text(
            m.name@,
        ) + "\"} "@ + text::dec(r.of(m)) + "\n"@)
    }
}

/// A metric with its introduction.
pub open spec fn reading_text(r: Reading, models: Seq<ModelStatus>) -> Seq<char> {
    intro(r.title(), r.meaning(), r.sort()) + reading_lines(r, models, models.len())
}

fn write_reading(
    out: &mut String,
    r: Reading,
    name: &str,
    help: &str,
    kind: &str,
    models: &Vec<ModelStatus>,
)
    requires
        name@ == r.title(),
        help@ == r.meaning(),
        kind@ == r.sort(),
    ensures
        final(out)@ == old(out)@ + reading_text(r, models@),
{
    let ghost before = out@;
    write_intro(out, name, help, kind);
    let ghost head = intro(r.title(), r.meaning(), r.sort());
    let mut i: usize = 0;
    proof {
        assert(out@ =~= before + (head + reading_lines(r, models@, 0)));
    }
    while i < models.len()
        invariant
            i <= models@.len(),
            name@ == r.title(),
            out@ == before + (head + reading_lines(r, models@, i as nat)),
        decreases models@.len() - i,
    {
        let mut t = name.to_owned();
        t.append("{model=\"");
        t.append(label(models[i].name.as_str()).as_str());
        t.append("\"} ");
        t.append(decimal(r.read(&models[i])).as_str());
        t.append("\n");
        out.append(t.as_str());
        proof {
            assert(out@ =~= before + (head + reading_lines(r, models@, (i + 1) as nat)));
        }
        i += 1;
    }
}

/// The times that are kept of each model.
#[derive(Clone, Copy, PartialEq, Eq, Structural, Debug)]
pub enum Timing {
    Forward,
    QueueWait,
}

impl Timing {
    /// The metric's name.
    pub open spec fn title(self) -> Seq<char> {
        match self {
            Timing::Forward => "candle_rlcd_forward_seconds"@,
            Timing::QueueWait => "candle_rlcd_queue_wait_seconds"@,
        }
    }

    /// What the metric measures.
    pub open spec fn meaning(self) -> Seq<char> {
        match self {
            Timing::Forward => "Time per forward pass."@,
            Timing::QueueWait => "Time a request waited for a worker."@,
        }
    }

    /// The times of a model.
    pub open spec fn of(self, m: ModelStatus) -> Histogram {
        match self {
            Timing::Forward => m.stats.forward,
            Timing::QueueWait => m.stats.queue_wait,
        }
    }
}

/// The lines of the times of the first `n` models.
pub open spec fn timing_lines(t: Timing, models: Seq<ModelStatus>, n: nat) -> Seq<char>
    decreases n,
{
    if n == 0 {
        Seq::empty()
    } else {
        let m = models[n - 1];
        timing_lines(t, models, (n - 1) as nat) + metrics::histogram_text(
            t.of(m).counts@,
            t.of(m).sum_us,
            t.title(),
            "model=\""@ + metrics::label_text(m.name@) + "\""@,
        )
    }
}

/// The times of all models with their introduction.
pub open spec fn timing_text(t: Timing, models: Seq<ModelStatus>) -> Seq<char> {
    intro(t.title(), t.meaning(), "histogram"@) + timing_lines(t, models, models.len())
}

fn write_timing(out: &mut String, t: Timing, name: &str, help: &str, models: &Vec<ModelStatus>)
    requires
        name@ == t.title(),
        help@ == t.meaning(),
    ensures
        final(out)@ == old(out)@ + timing_text(t, models@),
{
    let ghost before = out@;
    write_intro(out, name, help, "histogram");
    let ghost head = intro(t.title(), t.meaning(), "histogram"@);
    let mut i: usize = 0;
    proof {
        assert(out@ =~= before + (head + timing_lines(t, models@, 0)));
    }
    while i < models.len()
        invariant
            i <= models@.len(),
            name@ == t.title(),
            out@ == before + (head + timing_lines(t, models@, i as nat)),
        decreases models@.len() - i,
    {
        let mut l = "model=\"".to_owned();
        l.append(label(models[i].name.as_str()).as_str());
        l.append("\"");
        match t {
            Timing::Forward => models[i].stats.forward.render(out, name, l.as_str()),
            Timing::QueueWait => models[i].stats.queue_wait.render(out, name, l.as_str()),
        }
        proof {
            assert(out@ =~= before + (head + timing_lines(t, models@, (i + 1) as nat)));
        }
        i += 1;
    }
}

/// What the metrics page says of the models.
pub open spec fn model_text(models: Seq<ModelStatus>, running: nat) -> Seq<char> {
    reading_text(Reading::QueueDepth, models) + reading_text(Reading::Workers, models)
        + reading_text(Reading::Requests, models) + reading_text(Reading::Passes, models)
        + reading_text(Reading::Rows, models) + reading_text(Reading::Questions, models)
        + reading_text(Reading::InputTokens, models) + intro(
        "candle_rlcd_running_passes"@,
        "Forward passes running now, across all models."@,
        "gauge"@,
    ) + ("candle_rlcd_running_passes "@ + text::dec(running) + "\n"@) + timing_text(
        Timing::Forward,
        models,
    ) + timing_text(Timing::QueueWait, models)
}

fn write_models(models: &Vec<ModelStatus>, running: usize) -> (r: String)
    ensures
        r@ == model_text(models@, running as nat),
{
    let mut r = String::new();
    write_reading(
        &mut r,
        Reading::QueueDepth,
        "candle_rlcd_queue_depth",
        "Requests waiting for an inference worker.",
        "gauge",
        models,
    );
    proof {
        assert(r@ =~= reading_text(Reading::QueueDepth, models@));
    }
    write_reading(
        &mut r,
        Reading::Workers,
        "candle_rlcd_workers",
        "Inference worker threads.",
        "gauge",
        models,
    );
    write_reading(
        &mut r,
        Reading::Requests,
        "candle_rlcd_requests_total",
        "Requests run through the model.",
        "counter",
        models,
    );
    write_reading(
        &mut r,
        Reading::Passes,
        "candle_rlcd_forward_passes_total",
        "Forward passes (a batch of one or more requests).",
        "counter",
        models,
    );
    write_reading(
        &mut r,
        Reading::Rows,
        "candle_rlcd_rows_total",
        "Question rows run through the encoder.",
        "counter",
        models,
    );
    write_reading(
        &mut r,
        Reading::Questions,
        "candle_rlcd_questions_total",
        "Questions answered.",
        "counter",
        models,
    );
    write_reading(
        &mut r,
        Reading::InputTokens,
        "candle_rlcd_input_tokens_total",
        "Tokens read by the model (usage.input_tokens).",
        "counter",
        models,
    );
    write_intro(
        &mut r,
        "candle_rlcd_running_passes",
        "Forward passes running now, across all models.",
        "gauge",
    );
    let mut t = "candle_rlcd_running_passes ".to_owned();
    t.append(decimal(running as u64).as_str());
    t.append("\n");
    r.append(t.as_str());
    write_timing(
        &mut r,
        Timing::Forward,
        "candle_rlcd_forward_seconds",
        "Time per forward pass.",
        models,
    );
    write_timing(
        &mut r,
        Timing::QueueWait,
        "candle_rlcd_queue_wait_seconds",
        "Time a request waited for a worker.",
        models,
    );
    r
}

/// The metrics page: responses and their latency, and each model's queue, passes, rows, questions,
/// tokens and times.
pub fn metrics_page(http: &HttpMetrics, models: &Vec<ModelStatus>, running: usize) -> (r: String)
    ensures
        r@ == metrics::http_text(
            metrics::response_values(http.responses@),
            metrics::latency_values(http.latency@),
        ) + model_text(models@, running as nat),
{
    let mut r = String::new();
    http.render(&mut r);
    proof {
        assert(r@ =~= metrics::http_text(
            metrics::response_values(http.responses@),
            metrics::latency_values(http.latency@),
        ));
    }
    r.append(write_models(models, running).as_str());
    r
}

// ---------------------------------------------------------------------------------------------
// What replies tell

/// With a key only its bearer may ask; without one anybody may.
pub proof fn lemma_only_bearers_of_the_key_may_ask(k: Seq<char>, given: Seq<char>, h: Seq<char>)
    ensures
        authorized(None, None),
        authorized(None, Some(h)),
        !authorized(Some(k), None),
        authorized(Some(k), Some("Bearer "@ + given)) <==> text::trimmed(given) == k,
        !text::begins(h, "Bearer "@) ==> !authorized(Some(k), Some(h)),
{
    let s = "Bearer "@ + given;
    assert(s.take("Bearer "@.len() as int) =~= "Bearer "@);
    assert(s.skip("Bearer "@.len() as int) =~= given);
}

/// A request that is too long is refused, one that came when too many were waiting may be tried
/// again, and any other fault is the server's own and told in the reply's detail.
pub proof fn lemma_faults_are_told_by_status(e: EngineError, max: Option<usize>, n: nat)
    ensures
        e is Overloaded ==> failed(e).status == 529 && failed(e).header == Some(
            ("retry-after"@, "1"@),
        ),
        e matches EngineError::Failed(m) ==> failed(e).status == 500 && failed(e).header is None
            && json::member(failed(e).body->Object_0, "detail"@) == Some(JsonV::String(m@)),
        max is None ==> within_limit(max, n) == Ok::<nat, ReplyV>(n),
        max matches Some(m) ==> n <= m ==> within_limit(max, n) == Ok::<nat, ReplyV>(n),
        max matches Some(m) ==> n > m ==> (within_limit(max, n) matches Err(r) && r.status == 422),
{
    if let EngineError::Failed(m) = e {
        json::lemma_member_is(failed(e).body->Object_0, 0);
    }
}

/// A reply says under its names which model answered, and how many tokens it read and wrote.
pub proof fn lemma_replies_say_what_was_read(
    model: Seq<char>,
    names: Seq<Seq<char>>,
    answers: Seq<JsonV>,
    tokens: nat,
)
    ensures
        ({
            let r = answer_response(model, names, answers, tokens);
            &&& r.status == 200
            &&& r.body matches JsonV::Object(o)
            &&& json::member(o, "model"@) == Some(JsonV::String(model))
            &&& json::member(o, "usage"@) matches Some(JsonV::Object(u))
            &&& json::member(u, "input_tokens"@) == Some(JsonV::Number(NumV::Nat(tokens)))
            &&& json::member(u, "output_tokens"@) == Some(JsonV::Number(NumV::Nat(0)))
        }),
{
    reveal_strlit("model");
    reveal_strlit("answers");
    reveal_strlit("usage");
    reveal_strlit("input_tokens");
    reveal_strlit("output_tokens");
    assert("model"@.len() == 5);
    assert("answers"@.len() == 7);
    assert("usage"@.len() == 5);
    assert("input_tokens"@.len() == 12);
    assert("output_tokens"@.len() == 13);
    assert("model"@[0] == 'm');
    assert("usage"@[0] == 'u');
    let r = answer_response(model, names, answers, tokens);
    if let JsonV::Object(o) = r.body {
        json::lemma_member_is(o, 0);
        json::lemma_member_is(o, 2);
        if let JsonV::Object(u) = o[2].1 {
            json::lemma_member_is(u, 0);
            json::lemma_member_is(u, 1);
        }
    }
}

/// A listing says what a model is called, what it is and when it was released, under those names.
pub proof fn lemma_listings_describe_their_model(name: Seq<char>, m: ModelV)
    ensures
        ({
            &&& listing(name, m) matches JsonV::Object(o)
            &&& json::member(o, "name"@) == Some(JsonV::String(name))
            &&& json::member(o, "description"@) == Some(JsonV::String(m.description))
            &&& json::member(o, "release_date"@) == Some(JsonV::String(m.release_date))
        }),
{
    reveal_strlit("name");
    reveal_strlit("description");
    reveal_strlit("release_date");
    assert("name"@.len() == 4);
    assert("description"@.len() == 11);
    assert("release_date"@.len() == 12);
    if let JsonV::Object(o) = listing(name, m) {
        json::lemma_member_is(o, 0);
        json::lemma_member_is(o, 1);
        json::lemma_member_is(o, 2);
    }
}

/// Every name that models go by is listed as the model that was first to have it, and nothing else
/// is listed.
pub proof fn lemma_names_are_listed_as_their_first_model(v: Seq<(Seq<char>, int)>, models: Seq<ModelV>, i: int)
    ensures
        0 <= i < listings(v, models).len() ==> exists|k: int| #[trigger]
            is_listed(v, models, listings(v, models)[i], k),
        0 <= i < v.len() && !occurs(v.take(i), v[i].0) ==> exists|k: int|
            0 <= k < listings(v, models).len() && is_listed(
                v,
                models,
                #[trigger] listings(v, models)[k],
                i,
            ),
    decreases v.len(),
{
    if v.len() > 0 {
        let less = v.drop_last();
        lemma_names_are_listed_as_their_first_model(less, models, i);
        let a = listings(less, models);
        let b = listings(v, models);
        let last = v.len() - 1;
        assert(v.take(last) =~= less);
        if 0 <= i < a.len() {
            let k = choose|k: int| #[trigger] is_listed(less, models, a[i], k);
            assert(less.take(k) =~= v.take(k));
            assert(less[k] == v[k]);
            assert(b[i] == a[i]);
            assert(is_listed(v, models, b[i], k));
        } else if i == a.len() && i < b.len() {
            assert(is_listed(v, models, b[i], last));
        }
        if 0 <= i < v.len() && !occurs(v.take(i), v[i].0) {
            if i < last {
                assert(less.take(i) =~= v.take(i));
                assert(less[i] == v[i]);
                let k = choose|k: int|
                    0 <= k < a.len() && is_listed(less, models, #[trigger] a[k], i);
                assert(b[k] == a[k]);
                assert(is_listed(v, models, b[k], i));
            } else {
                assert(is_listed(v, models, b[a.len() as int], i));
            }
        }
    }
}

/// Whether an entry lists the name at `k`, which was not listed before, as its model.
pub open spec fn is_listed(
    v: Seq<(Seq<char>, int)>,
    models: Seq<ModelV>,
    entry: JsonV,
    k: int,
) -> bool {
    &&& 0 <= k < v.len()
    &&& !occurs(v.take(k), v[k].0)
    &&& entry == listing(v[k].0, models[v[k].1])
}

/// A model goes by its name and its aliases, and the first model by the server's aliases too.
pub proof fn lemma_models_go_by_their_names(models: Seq<ModelV>, k: int, i: int)
    requires
        0 <= k < models.len(),
    ensures
        candidates(models).contains((models[k].name, k)),
        0 <= i < models[k].aliases.len() ==> candidates(models).contains((models[k].aliases[i], k)),
        candidates(models).contains(("jev-latest"@, 0int)),
        candidates(models).contains(("jev-preview"@, 0int)),
{
    let own = own_names(models, models.len());
    let c = candidates(models);
    lemma_own_names(models, models.len(), k, i);
    let a = choose|a: int| 0 <= a < own.len() && own[a] == (models[k].name, k);
    assert(c[a] == own[a]);
    if 0 <= i < models[k].aliases.len() {
        let b = choose|b: int| 0 <= b < own.len() && own[b] == (models[k].aliases[i], k);
        assert(c[b] == own[b]);
    }
    assert(c[own.len() as int] == ("jev-latest"@, 0int));
    assert(c[own.len() as int + 1] == ("jev-preview"@, 0int));
}

proof fn lemma_own_names(models: Seq<ModelV>, n: nat, k: int, i: int)
    requires
        0 <= k < n <= models.len(),
    ensures
        own_names(models, n).contains((models[k].name, k)),
        0 <= i < models[k].aliases.len() ==> own_names(models, n).contains(
            (models[k].aliases[i], k),
        ),
    decreases n,
{
    let less = own_names(models, (n - 1) as nat);
    let own = own_names(models, n);
    if k < n - 1 {
        lemma_own_names(models, (n - 1) as nat, k, i);
        let a = choose|a: int| 0 <= a < less.len() && less[a] == (models[k].name, k);
        assert(own[a] == less[a]);
        if 0 <= i < models[k].aliases.len() {
            let b = choose|b: int| 0 <= b < less.len() && less[b] == (models[k].aliases[i], k);
            assert(own[b] == less[b]);
        }
    } else {
        assert(own[less.len() as int] == (models[k].name, k));
        if 0 <= i < models[k].aliases.len() {
            assert(own[less.len() + 1 + i] == (models[k].aliases[i], k));
        }
    }
}

/// The server's health tells of the first model by name what it runs on and what it did, and of
/// every model what it is called and how much it was asked.
pub proof fn lemma_health_tells_of_every_model(models: Seq<ModelStatus>, wait_ms: JsonV, i: int)
    requires
        0 <= i < models.len(),
    ensures
        ({
            let m = models[0];
            &&& health_of(models, wait_ms) matches JsonV::Object(o)
            &&& json::member(o, "status"@) == Some(JsonV::String("ok"@))
            &&& json::member(o, "model"@) == Some(JsonV::String(m.name@))
            &&& json::member(o, "workers"@) == Some(
                JsonV::Number(NumV::Nat(m.config.workers as nat)),
            )
            &&& json::member(o, "threads_per_worker"@) == Some(
                JsonV::Number(NumV::Nat(m.config.threads_per_worker as nat)),
            )
            &&& json::member(o, "adaptive"@) == Some(JsonV::Bool(m.config.adaptive))
            &&& json::member(o, "max_batch_rows"@) == Some(
                JsonV::Number(NumV::Nat(m.config.max_batch_rows as nat)),
            )
            &&& json::member(o, "batch_wait_ms"@) == Some(wait_ms)
            &&& json::member(o, "requests"@) == Some(
                JsonV::Number(NumV::Nat(m.stats.requests as nat)),
            )
            &&& json::member(o, "batches"@) == Some(JsonV::Number(NumV::Nat(m.stats.batches as nat)))
            &&& json::member(o, "rows"@) == Some(JsonV::Number(NumV::Nat(m.stats.rows as nat)))
            &&& json::member(o, "models"@) matches Some(JsonV::Array(a))
            &&& a.len() == models.len()
            &&& a[i] matches JsonV::Object(e)
            &&& json::member(e, "name"@) == Some(JsonV::String(models[i].name@))
            &&& json::member(e, "layout"@) == Some(
                JsonV::String(
                    if models[i].layout == Layout::Laya {
                        "laya"@
                    } else {
                        "prefix"@
                    },
                ),
            )
            &&& json::member(e, "requests"@) == Some(
                JsonV::Number(NumV::Nat(models[i].stats.requests as nat)),
            )
            &&& json::member(e, "queued"@) == Some(JsonV::Number(NumV::Nat(models[i].queued as nat)))
        }),
{
    reveal_strlit("status");
    reveal_strlit("model");
    reveal_strlit("layout");
    reveal_strlit("workers");
    reveal_strlit("threads_per_worker");
    reveal_strlit("adaptive");
    reveal_strlit("max_batch_rows");
    reveal_strlit("batch_wait_ms");
    reveal_strlit("requests");
    reveal_strlit("batches");
    reveal_strlit("rows");
    reveal_strlit("models");
    reveal_strlit("name");
    reveal_strlit("aliases");
    reveal_strlit("queued");
    assert("status"@.len() == 6);
    assert("model"@.len() == 5);
    assert("layout"@.len() == 6);
    assert("workers"@.len() == 7);
    assert("threads_per_worker"@.len() == 18);
    assert("adaptive"@.len() == 8);
    assert("max_batch_rows"@.len() == 14);
    assert("batch_wait_ms"@.len() == 13);
    assert("requests"@.len() == 8);
    assert("batches"@.len() == 7);
    assert("rows"@.len() == 4);
    assert("models"@.len() == 6);
    assert("name"@.len() == 4);
    assert("aliases"@.len() == 7);
    assert("queued"@.len() == 6);
    assert("layout"@[0] == 'l');
    assert("models"@[0] == 'm');
    assert("queued"@[0] == 'q');
    assert("status"@[0] == 's');
    assert("aliases"@[0] == 'a');
    assert("batches"@[0] == 'b');
    assert("workers"@[0] == 'w');
    assert("adaptive"@[0] == 'a');
    assert("requests"@[0] == 'r');
    assert("name"@[0] == 'n');
    assert("rows"@[0] == 'r');
    if let JsonV::Object(o) = health_of(models, wait_ms) {
        json::lemma_member_is(o, 0);
        json::lemma_member_is(o, 1);
        json::lemma_member_is(o, 3);
        json::lemma_member_is(o, 4);
        json::lemma_member_is(o, 5);
        json::lemma_member_is(o, 6);
        json::lemma_member_is(o, 7);
        json::lemma_member_is(o, 8);
        json::lemma_member_is(o, 9);
        json::lemma_member_is(o, 10);
        json::lemma_member_is(o, 11);
        if let JsonV::Object(e) = status_of(models[i]) {
            json::lemma_member_is(e, 0);
            json::lemma_member_is(e, 2);
            json::lemma_member_is(e, 3);
            json::lemma_member_is(e, 4);
        }
    }
}

/// A measure is called by what it measures.
pub proof fn lemma_measures_are_called_by_what_they_measure(r: Reading, t: Timing, m: ModelStatus)
    ensures
        r.title() == "candle_rlcd_queue_depth"@ ==> r.of(m) == m.queued && r.sort() == "gauge"@,
        r.title() == "candle_rlcd_workers"@ ==> r.of(m) == m.config.workers && r.sort() == "gauge"@,
        r.title() == "candle_rlcd_requests_total"@ ==> r.of(m) == m.stats.requests && r.sort()
            == "counter"@,
        r.title() == "candle_rlcd_forward_passes_total"@ ==> r.of(m) == m.stats.batches && r.sort()
            == "counter"@,
        r.title() == "candle_rlcd_rows_total"@ ==> r.of(m) == m.stats.rows && r.sort() == "counter"@,
        r.title() == "candle_rlcd_questions_total"@ ==> r.of(m) == m.stats.questions && r.sort()
            == "counter"@,
        r.title() == "candle_rlcd_input_tokens_total"@ ==> r.of(m) == m.stats.input_tokens
            && r.sort() == "counter"@,
        t.title() == "candle_rlcd_forward_seconds"@ ==> t.of(m) == m.stats.forward,
        t.title() == "candle_rlcd_queue_wait_seconds"@ ==> t.of(m) == m.stats.queue_wait,
{
    reveal_strlit("candle_rlcd_queue_depth");
    reveal_strlit("candle_rlcd_workers");
    reveal_strlit("candle_rlcd_requests_total");
    reveal_strlit("candle_rlcd_forward_passes_total");
    reveal_strlit("candle_rlcd_rows_total");
    reveal_strlit("candle_rlcd_questions_total");
    reveal_strlit("candle_rlcd_input_tokens_total");
    reveal_strlit("candle_rlcd_forward_seconds");
    reveal_strlit("candle_rlcd_queue_wait_seconds");
    assert("candle_rlcd_queue_depth"@.len() == 23);
    assert("candle_rlcd_workers"@.len() == 19);
    assert("candle_rlcd_requests_total"@.len() == 26);
    assert("candle_rlcd_forward_passes_total"@.len() == 32);
    assert("candle_rlcd_rows_total"@.len() == 22);
    assert("candle_rlcd_questions_total"@.len() == 27);
    assert("candle_rlcd_input_tokens_total"@.len() == 30);
    assert("candle_rlcd_forward_seconds"@.len() == 27);
    assert("candle_rlcd_queue_wait_seconds"@.len() == 30);
    assert("candle_rlcd_forward_seconds"@[12] == 'f');
    assert("candle_rlcd_questions_total"@[12] == 'q');
    assert("candle_rlcd_input_tokens_total"@[12] == 'i');
    assert("candle_rlcd_queue_wait_seconds"@[12] == 'q');
}

/// A path is counted under its own name when the server has it, and else with the others.
pub proof fn lemma_routes_are_named_once(p: Seq<char>)
    ensures
        route_named(route_named(p)) == route_named(p),
        route_named(p) == p || route_named(p) == "other"@,
        route_named("/v1/systemone"@) == "/v1/systemone"@,
        route_named("/v1/models"@) == "/v1/models"@,
        route_named("/health"@) == "/health"@,
        route_named("/metrics"@) == "/metrics"@,
{
}

/// The tokens behind the state are those of each row without its state.
pub proof fn lemma_question_tokens_leave_out_the_state(rows: Seq<Encoded>, more: Encoded)
    requires
        more.prefix_len <= more.ids@.len(),
    ensures
        question_tokens(rows.push(more)) + more.prefix_len == question_tokens(rows)
            + more.ids@.len(),
        question_tokens(Seq::empty()) == 0,
{
    assert(rows.push(more).drop_last() =~= rows);
}

/// A model answers to its name and to each of its aliases, and to nothing else.
pub proof fn lemma_models_answer_to_their_names(m: ModelV, name: Seq<char>, i: int)
    ensures
        answers_to(m, m.name),
        0 <= i < m.aliases.len() ==> answers_to(m, m.aliases[i]),
        name != m.name && (forall|k: int| 0 <= k < m.aliases.len() ==> #[trigger] m.aliases[k]
            != name) ==> !answers_to(m, name),
{
    if name != m.name && answers_to(m, name) {
        let k = choose|k: int| 0 <= k < m.aliases.len() && m.aliases[k] == name;
        assert(m.aliases[k] == name);
    }
}

/// Who may not ask is told how to, and a request that is too large or names no model is told so at
/// the place at fault.
pub proof fn lemma_refusals_name_the_place(
    models: Seq<ModelV>,
    name: Seq<char>,
    max: nat,
    n: nat,
    message: Seq<char>,
)
    ensures
        unauthorized().status == 401,
        unauthorized().header == Some(("www-authenticate"@, "Bearer"@)),
        json::member(unauthorized().body->Object_0, "detail"@) == Some(
            JsonV::String("Not authenticated"@),
        ),
        unknown_model(models, name).loc == seq![JsonV::String("body"@), JsonV::String("model"@)],
        unknown_model(models, name).input == Some(JsonV::String(name)),
        too_many_questions(max, n).loc == seq![
            JsonV::String("body"@),
            JsonV::String("questions"@),
        ],
        too_many_questions(max, n).kind == "too_long"@,
        too_many_tokens(max, n).loc == seq![JsonV::String("body"@)],
        too_many_tokens(max, n).ctx matches Some(JsonV::Object(c)) && json::member(
            c,
            "max_tokens"@,
        ) == Some(JsonV::Number(NumV::Nat(max))) && json::member(c, "actual_tokens"@) == Some(
            JsonV::Number(NumV::Nat(n)),
        ),
        no_rows(message).loc == seq![JsonV::String("body"@)],
        no_rows(message).msg == message,
{
    reveal_strlit("max_tokens");
    reveal_strlit("actual_tokens");
    assert("max_tokens"@.len() == 10);
    assert("actual_tokens"@.len() == 13);
    json::lemma_member_is(unauthorized().body->Object_0, 0);
    if let Some(JsonV::Object(c)) = too_many_tokens(max, n).ctx {
        json::lemma_member_is(c, 0);
        json::lemma_member_is(c, 1);
    }
}

} // verus!
