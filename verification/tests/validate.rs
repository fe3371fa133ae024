use candle_rlcd::json::{get, parse, Json};
use candle_rlcd::validate::{
    parse_question, parse_system_one, validation_body, MAX_CHOICE_OPTIONS, MAX_SCORE_LEVELS,
};

fn read(text: &str) -> Json {
    parse(text.as_bytes()).unwrap()
}

fn field<'a>(v: &'a Json, key: &str) -> &'a Json {
    match v {
        Json::Object(o) => get(o, key).unwrap(),
        _ => panic!("no object"),
    }
}

fn errs(body: &str) -> Vec<Json> {
    let e = parse_system_one(body.as_bytes()).unwrap_err();
    match validation_body(&e) {
        Json::Object(mut o) => match o.remove(0).1 {
            Json::Array(a) => a,
            _ => panic!("no list"),
        },
        _ => panic!("no object"),
    }
}

fn kind(v: &Json) -> &str {
    match field(v, "type") {
        Json::String(s) => s.as_str(),
        _ => panic!("no text"),
    }
}

#[test]
fn parses_the_documented_example() {
    let r = parse_system_one(
        br#"{"state": "Help! My payouts have been failing for 3 days.", "model": "jev-latest",
             "questions": {
               "is_urgent": {"type": "noul", "instructions": "Does this convey urgency?",
                             "criteria": {"true": "Explicitly time-sensitive", "false": "No urgency expressed"}},
               "department": {"type": "choice", "instructions": "Which team should handle this?",
                              "criteria": {"billing": "Payments", "technical": null}},
               "frustration": {"type": "score", "instructions": {"question": "How frustrated?", "ctx": [1]},
                               "criteria": ["Calm", "Frustrated", {"level": "Very angry"}]}}}"#,
    )
    .unwrap();
    assert_eq!(r.model, "jev-latest");
    let ids: Vec<&str> = r.questions.iter().map(|(i, _)| i.as_str()).collect();
    assert_eq!(ids, ["is_urgent", "department", "frustration"]);
    assert_eq!(r.questions[1].1.option_keys(), ["billing", "technical"]);
    assert_eq!(
        r.questions[2].1.ins,
        r#"{"question": "How frustrated?", "ctx": [1]}"#
    );
}

#[test]
fn errors_follow_fastapi_shape() {
    let d = errs(r#"{"model": "jev-latest", "questions": {}}"#);
    assert_eq!(*field(&d[0], "loc"), read(r#"["body", "state"]"#));
    assert_eq!(kind(&d[0]), "missing");
    assert_eq!(kind(&d[1]), "too_short");

    let d = errs(r#"{"state": "x", "model": "m", "questions": {"q": {"type": "maybe"}}}"#);
    assert_eq!(kind(&d[0]), "union_tag_invalid");
    assert_eq!(*field(&d[0], "loc"), read(r#"["body", "questions", "q"]"#));

    let d = errs(r#"{"state": "x", "model": "m", "questions": {"q": {"type": "score"}}}"#);
    assert_eq!(
        *field(&d[0], "loc"),
        read(r#"["body", "questions", "q", "score", "criteria"]"#)
    );
    assert_eq!(kind(&d[0]), "missing");

    let d = errs(r#"{"state": 3, "model": "m", "questions": {"q": {"type": "noul"}}}"#);
    assert_eq!(*field(&d[0], "loc"), read(r#"["body", "state"]"#));

    let e = parse_system_one(b"{not json").unwrap_err();
    assert_eq!(e[0].kind, "json_invalid");
}

#[test]
fn bad_json_is_placed_by_its_column() {
    let e = parse_system_one(b"{\"a\": }").unwrap_err();
    let at = serde_json::from_str::<serde_json::Value>("{\"a\": }").unwrap_err().column();
    match &e[0].loc[1] {
        Json::Number(n) => assert_eq!(candle_rlcd::json::write_number(n), at.to_string()),
        _ => panic!("no number"),
    }
}

#[test]
fn lists_are_limited() {
    let crit: Vec<String> = (0..=MAX_CHOICE_OPTIONS).map(|i| format!("\"o{i}\": null")).collect();
    let q = read(&format!(
        r#"{{"type": "choice", "instructions": "x", "criteria": {{{}}}}}"#,
        crit.join(",")
    ));
    let e = parse_question("q", &q).unwrap_err();
    assert_eq!(e[0].kind, "too_long");
    let crit: Vec<String> = (0..MAX_CHOICE_OPTIONS).map(|i| format!("\"o{i}\": null")).collect();
    let q = read(&format!(
        r#"{{"type": "choice", "instructions": "x", "criteria": {{{}}}}}"#,
        crit.join(",")
    ));
    assert_eq!(
        parse_question("q", &q).unwrap().option_keys().len(),
        MAX_CHOICE_OPTIONS
    );
    let crit: Vec<String> = (0..=MAX_SCORE_LEVELS).map(|i| format!("\"l{i}\"")).collect();
    let q = read(&format!(
        r#"{{"type": "score", "instructions": "x", "criteria": [{}]}}"#,
        crit.join(",")
    ));
    assert_eq!(parse_question("q", &q).unwrap_err()[0].kind, "too_long");
}

#[test]
fn the_last_of_two_questions_with_one_id_counts() {
    let r = parse_system_one(
        br#"{"state": "x", "model": "m", "questions": {
             "q": {"type": "noul", "instructions": "first"},
             "r": {"type": "noul", "instructions": "r"},
             "q": {"type": "noul", "instructions": "second"}}}"#,
    )
    .unwrap();
    assert_eq!(r.questions.len(), 2);
    assert_eq!(r.questions[0].1.ins, "second");
}
