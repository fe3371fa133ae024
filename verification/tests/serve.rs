use candle_rlcd::agent::AnswerNumbers;
use candle_rlcd::config::{default_head_layers, default_temperature, AgentConfig};
use candle_rlcd::engine::{EngineConfig, EngineError, Stats};
use candle_rlcd::json::{compact, get, parse, Json, Num};
use candle_rlcd::metrics::HttpMetrics;
use candle_rlcd::model::Layout;
use candle_rlcd::plan::rows_tokens;
use candle_rlcd::sequence::Specials;
use candle_rlcd::serve::{
    answer_reply, authorize, encode_request, failure_reply, health_reply, jev_answer,
    method_not_allowed, metrics_page, models_reply, not_found, open_request, pick, request_id,
    route_of, timeout_reply, ModelStatus, Reply, ServeConfig, ServedModel, JEV_MAX_REQUEST_TOKENS,
};
use candle_rlcd::tokenizer::train_tokenizer;

fn read(text: &str) -> Json {
    parse(text.as_bytes()).unwrap()
}

fn field<'a>(v: &'a Json, key: &str) -> &'a Json {
    match v {
        Json::Object(o) => get(o, key).unwrap(),
        _ => panic!("no object"),
    }
}

fn keys(v: &Json) -> Vec<&str> {
    match v {
        Json::Object(o) => o.iter().map(|(k, _)| k.as_str()).collect(),
        _ => panic!("no object"),
    }
}

fn first_error(r: &Reply) -> &Json {
    match field(&r.body, "detail") {
        Json::Array(a) => &a[0],
        _ => panic!("no list"),
    }
}

fn model(name: &str, aliases: &[&str]) -> ServedModel {
    ServedModel {
        name: name.to_string(),
        aliases: aliases.iter().map(|a| a.to_string()).collect(),
        description: format!("{name} model"),
        release_date: "2026-09-25".to_string(),
    }
}

fn request(state: &str) -> String {
    format!(
        r#"{{"state": "{state}", "model": "jev-latest", "questions": {{
            "is_urgent": {{"type": "noul", "instructions": "Does this convey urgency?",
                          "criteria": {{"true": "Explicitly time-sensitive", "false": "No urgency expressed"}}}},
            "department": {{"type": "choice", "instructions": "Which team should handle this?",
                           "criteria": {{"billing": "Payments, invoicing, refunds", "technical": "Bugs, outages", "sales": null}}}},
            "frustration": {{"type": "score", "instructions": "How frustrated is the customer?",
                            "criteria": ["Calm", "Frustrated", "Very angry"]}}}}}}"#
    )
}

fn float(t: &str) -> Json {
    Json::Number(Num::Float(t.to_string()))
}

fn bits(v: &[f32]) -> Vec<u32> {
    v.iter().map(|x| x.to_bits()).collect()
}

fn numbers(probs: &[&str]) -> AnswerNumbers {
    AnswerNumbers {
        probs: probs.iter().map(|p| float(p)).collect(),
        confidence: float("0.61"),
        score: float("1.2"),
        act: float("0.9"),
    }
}

fn open() -> ServeConfig {
    ServeConfig::default()
}

#[test]
fn answers_have_the_documented_shapes() {
    let models = vec![model("tiny", &[])];
    let body = request("Help! My payouts have been failing for 3 days.");
    let (k, req) = open_request(&open(), &models, None, body.as_bytes()).unwrap();
    assert_eq!(k, 0);
    let p = [
        (bits(&[0.1, 0.9]), numbers(&["0.1", "0.9"])),
        (bits(&[0.2, 0.3, 0.5]), numbers(&["0.2", "0.3", "0.5"])),
        (bits(&[0.2, 0.3, 0.5]), numbers(&["0.2", "0.3", "0.5"])),
    ];
    let answers: Vec<Json> = req
        .questions
        .iter()
        .zip(&p)
        .map(|((_, q), (p, n))| jev_answer(q, p, n, false))
        .collect();
    let ids: Vec<String> = req.questions.iter().map(|(i, _)| i.clone()).collect();
    let r = answer_reply("tiny", &ids, &answers, 87);
    assert_eq!(r.status, 200);
    assert_eq!(*field(&r.body, "model"), Json::String("tiny".to_string()));
    assert_eq!(
        compact(field(&r.body, "usage")),
        r#"{"input_tokens":87,"output_tokens":0}"#
    );
    let a = field(&r.body, "answers");
    // Answers come back in request order.
    assert_eq!(keys(a), ["is_urgent", "department", "frustration"]);
    assert_eq!(keys(field(a, "is_urgent")), ["type", "noul"]);
    assert_eq!(
        keys(field(a, "department")),
        ["type", "choice", "probabilities", "confidence"]
    );
    assert_eq!(
        keys(field(a, "frustration")),
        ["type", "score", "legend", "probabilities", "confidence"]
    );
    assert_eq!(
        *field(field(a, "frustration"), "legend"),
        read(r#"{"0": "Calm", "1": "Frustrated", "2": "Very angry"}"#)
    );
    assert_eq!(
        *field(field(a, "department"), "choice"),
        Json::String("sales".to_string())
    );
    let more = jev_answer(&req.questions[0].1, &p[0].0, &p[0].1, true);
    assert_eq!(
        compact(&more),
        r#"{"type":"noul","noul":0.9,"answer_confidence":0.9,"act_probability":0.9}"#
    );
}

#[test]
fn refusals_have_the_documented_shapes() {
    let models = vec![model("tiny", &[])];
    let bad = br#"{"state": "x", "model": "m", "questions": {"q": {"type": "score", "criteria": []}}}"#;
    let r = open_request(&open(), &models, None, bad).unwrap_err();
    assert_eq!(r.status, 422);
    assert_eq!(
        *field(first_error(&r), "loc"),
        read(r#"["body", "questions", "q", "score", "criteria"]"#)
    );
    assert_eq!(not_found().status, 404);
    assert_eq!(compact(&not_found().body), r#"{"detail":"Not Found"}"#);
    assert_eq!(method_not_allowed().status, 405);
    let full = failure_reply(&EngineError::Overloaded);
    assert_eq!((full.status, full.header), (529, Some(("retry-after", "1"))));
    let broken = failure_reply(&EngineError::Failed("boom".to_string()));
    assert_eq!((broken.status, compact(&broken.body)), (500, r#"{"detail":"boom"}"#.to_string()));
    let late = timeout_reply("2.5");
    assert_eq!(
        (late.status, compact(&late.body)),
        (504, r#"{"detail":"Timed out after 2.5 s"}"#.to_string())
    );
}

#[test]
fn the_key_is_asked_for_when_there_is_one() {
    let cfg = ServeConfig {
        api_key: Some("sekret".to_string()),
        ..open()
    };
    let models = vec![model("tiny", &[])];
    let body = request("hi");
    let ask = |h: Option<&str>| open_request(&cfg, &models, h, body.as_bytes());
    let r = ask(None).unwrap_err();
    assert_eq!((r.status, r.header), (401, Some(("www-authenticate", "Bearer"))));
    assert_eq!(ask(Some("Bearer wrong")).unwrap_err().status, 401);
    assert_eq!(ask(Some("sekret")).unwrap_err().status, 401);
    assert!(ask(Some("Bearer sekret")).is_ok());
    assert!(ask(Some("Bearer  sekret ")).is_ok());
    assert!(authorize(&None, None).is_none());
}

#[test]
fn several_models_are_told_apart_by_name() {
    let models = vec![model("joint", &["joint@abc1234"]), model("prefix", &[])];
    for (name, k) in [
        ("joint", 0),
        ("joint@abc1234", 0),
        ("prefix", 1),
        ("jev-latest", 0),
        ("jev-preview", 0),
    ] {
        assert_eq!(pick(&models, name), Ok(k), "{name}");
    }
    let e = pick(&models, "other").unwrap_err();
    assert_eq!(
        e.msg,
        "Value error, unknown model 'other'; this server has: joint, prefix"
    );
    // With one model every name means it.
    assert_eq!(pick(&vec![model("tiny", &[])], "other"), Ok(0));
    let Json::Array(list) = field(&models_reply(&models).body, "models").copy() else {
        panic!()
    };
    let names: Vec<String> = list
        .iter()
        .map(|m| compact(field(m, "name")))
        .collect();
    assert_eq!(
        names,
        [
            "\"joint\"",
            "\"joint@abc1234\"",
            "\"prefix\"",
            "\"jev-latest\"",
            "\"jev-preview\""
        ]
    );
}

#[test]
fn questions_are_capped() {
    let cfg = ServeConfig {
        max_questions: Some(2),
        ..open()
    };
    let models = vec![model("tiny", &[])];
    let r = open_request(&cfg, &models, None, request("x").as_bytes()).unwrap_err();
    assert_eq!(r.status, 422);
    let e = first_error(&r);
    assert_eq!(*field(e, "type"), Json::String("too_long".to_string()));
    assert_eq!(
        *field(e, "msg"),
        Json::String("Dictionary should have at most 2 items after validation, not 3".to_string())
    );
}

#[test]
fn tokens_are_capped() {
    let tok = train_tokenizer(vec!["some text".to_string()], 300).unwrap();
    let sp = Specials::resolve(&tok, None).unwrap();
    let agent = AgentConfig {
        layout: Layout::Laya,
        head_layers: default_head_layers(),
        act_costs: vec![],
        max_len: 128,
        head_max_len: 48,
        temperature: default_temperature(),
        temperature_by_options: vec![],
        calibration: None,
    };
    let models = vec![model("tiny", &[])];
    let (_, req) = open_request(&open(), &models, None, request("hello").as_bytes()).unwrap();
    assert_eq!(open().max_request_tokens, Some(JEV_MAX_REQUEST_TOKENS));
    let (rows, n) = encode_request(&open(), &tok, &sp, &agent, &req).unwrap();
    assert_eq!(rows.len(), 3);
    assert_eq!(n, rows.iter().map(|r| r.ids.len()).sum::<usize>());
    let tight = ServeConfig {
        max_request_tokens: Some(n - 1),
        ..open()
    };
    let r = encode_request(&tight, &tok, &sp, &agent, &req).unwrap_err();
    assert_eq!(r.status, 422);
    assert_eq!(
        *field(first_error(&r), "msg"),
        Json::String(format!(
            "Value error, the request is {n} tokens, more than the limit of {}",
            n - 1
        ))
    );
    // With the state first it is read once.
    let prefix = AgentConfig {
        layout: Layout::Prefix,
        ..agent
    };
    let (rows, n) = encode_request(&open(), &tok, &sp, &prefix, &req).unwrap();
    let state = rows[0].prefix_len;
    assert!(state > 0);
    assert_eq!(n, rows.iter().map(|r| r.ids.len()).sum::<usize>() - 2 * state);
    assert_eq!(n, rows_tokens(&rows));
}

fn status(name: &str) -> ModelStatus {
    let mut stats = Stats::new();
    stats.count_batch(2, 7);
    stats.forward.observe(3_000_000);
    ModelStatus {
        name: name.to_string(),
        aliases: vec![],
        layout: Layout::Prefix,
        config: EngineConfig::for_cores(4),
        queued: 1,
        stats,
    }
}

#[test]
fn health_and_metrics_tell_how_models_do() {
    let models = vec![status("a"), status("b\"")];
    let r = health_reply(&models, float("0.5"));
    assert_eq!(r.status, 200);
    assert_eq!(
        keys(&r.body),
        [
            "status",
            "model",
            "layout",
            "workers",
            "threads_per_worker",
            "adaptive",
            "max_batch_rows",
            "batch_wait_ms",
            "requests",
            "batches",
            "rows",
            "models"
        ]
    );
    assert_eq!(compact(field(&r.body, "rows")), "7");
    assert_eq!(compact(field(&r.body, "layout")), "\"prefix\"");
    let mut http = HttpMetrics::new();
    http.record(route_of("/v1/systemone"), 200, 1_000_000);
    let page = metrics_page(&http, &models, 1);
    assert!(page.contains("route=\"/v1/systemone\",status=\"200\"} 1\n"), "{page}");
    for line in [
        "candle_rlcd_requests_total{model=\"a\"} 2",
        "candle_rlcd_rows_total{model=\"a\"} 7",
        "candle_rlcd_questions_total{model=\"a\"} 0",
        "candle_rlcd_http_requests_total{route=\"/v1/systemone\",status=\"200\"} 1",
        "candle_rlcd_forward_seconds_count{model=\"a\"} 1",
        "candle_rlcd_queue_depth{model=\"a\"} 1",
        "candle_rlcd_running_passes 1",
    ] {
        assert!(page.contains(line), "missing {line:?} in\n{page}");
    }
    assert!(page.contains("model=\"b\\\"\""), "{page}");
    assert!(page.contains("model=\"a\",le=\"0.005\"} 1\n"), "{page}");
}

#[test]
fn requests_have_ids_and_routes() {
    assert_eq!(request_id(0x1a, 0x1_0000_00ff), "req_ff0000001a");
    assert_eq!(request_id(0x1_2345_6789, 0), "req_0123456789");
    assert_eq!(route_of("/metrics"), "/metrics");
    assert_eq!(route_of("/v1/nothing"), "other");
}
