use candle_rlcd::json::{compact, parse, Json, Num};
use candle_rlcd::sequence::{
    build_prefix_sequence, build_sequence, build_state_prefix, encode_state, encode_text,
    fit_budget, joint_row, missing_token_message, prefix_row, python_json, question_parts, serialize_state, QType, Question, QuestionError,
    QuestionParts, SequenceError, Specials, OPTION_MAX_TOKENS,
};
use candle_rlcd::tokenizer::train_tokenizer;

fn read(text: &str) -> Json {
    parse(text.as_bytes()).unwrap()
}

fn question(text: &str) -> Question {
    Question::from_json(&read(text)).unwrap()
}

fn tokenizer() -> tokenizers::Tokenizer {
    let texts = vec![
        "which team handles this billing shipping other".to_string(),
        "choice question: which? score question: how urgent? noul question: is it?".to_string(),
    ];
    train_tokenizer(texts, 400).unwrap()
}

#[test]
fn python_json_matches_dumps() {
    let v = read(r#"{"a": [1, 2.5, "x\"y"], "b": {"c": null, "d": true}, "e": 3.0}"#);
    assert_eq!(
        python_json(&v),
        r#"{"a": [1, 2.5, "x\"y"], "b": {"c": null, "d": true}, "e": 3.0}"#
    );
}

#[test]
fn numbers_are_written_as_python_writes_them() {
    for (given, want) in [
        ("1e16", "1e+16"),
        ("1e15", "1000000000000000.0"),
        ("123456789012345.5", "123456789012345.5"),
        ("-0.0", "-0.0"),
        ("0.0001", "0.0001"),
        ("18446744073709551615", "18446744073709551615"),
        ("-9223372036854775808", "-9223372036854775808"),
        ("[]", "[]"),
        ("{}", "{}"),
    ] {
        assert_eq!(python_json(&read(given)), want, "{given}");
    }
    assert_eq!(python_json(&read(r#""\u0001\n\t\u007f é""#)), "\"\\u0001\\n\\t\u{7f} é\"");
}

#[test]
fn render_options_by_type() {
    let q = question(
        r#"{"t": "choice", "ins": "x", "crit": {"a": "first", "b": null, "c": {"k": 1}}}"#,
    );
    assert_eq!(q.render_options(), vec!["a: first", "b", r#"c: {"k": 1}"#]);
    let q = question(r#"{"t": "noul", "ins": "x", "labels": {"false": "no", "true": "yes"}}"#);
    assert_eq!(
        q.render_options(),
        vec![
            "no: no, the statement does not hold",
            "yes: yes, the statement holds"
        ]
    );
    let q = question(r#"{"t": "score", "ins": "x", "crit": ["lo", "hi"]}"#);
    assert_eq!(q.render_options(), vec!["level 0: lo", "level 1: hi"]);
}

#[test]
fn bad_questions_say_why() {
    let why = |v: &str| Question::from_json(&read(v)).unwrap_err();
    assert_eq!(why("3"), QuestionError::NotAnObject);
    assert_eq!(why(r#"{"t": "x"}"#), QuestionError::UnknownType(Some("x".to_string())));
    assert_eq!(why("{}"), QuestionError::UnknownType(None));
    assert_eq!(
        why(r#"{"t": "score", "ins": "x", "crit": ["a"], "labels": {"true": "y", "false": "n"}}"#),
        QuestionError::LabelsOnlyForNoul
    );
    assert_eq!(
        why(r#"{"t": "choice", "ins": "x", "crit": []}"#),
        QuestionError::ChoiceNotAnObject
    );
    assert_eq!(why(r#"{"t": "choice", "ins": "x", "crit": {}}"#), QuestionError::ChoiceEmpty);
    assert_eq!(why(r#"{"t": "score", "ins": "x", "crit": {}}"#), QuestionError::ScoreNotAList);
    assert_eq!(why(r#"{"t": "score", "ins": "x", "crit": []}"#), QuestionError::ScoreEmpty);
    assert_eq!(
        why(r#"{"t": "noul", "ins": "x", "labels": {"true": 1}}"#),
        QuestionError::BadLabels
    );
    assert_eq!(
        why(r#"{"t": "noul", "ins": "x", "labels": 3}"#),
        QuestionError::LabelsNotAnObject
    );
    assert!(why(r#"{"t": "x\"y"}"#).message().contains("\"x\\\"y\""));
}

#[test]
fn states_are_text_or_documents() {
    assert_eq!(serialize_state(&read(r#""as it is""#)), "as it is");
    assert_eq!(serialize_state(&read(r#"{"a":[1,2]}"#)), r#"{"a": [1, 2]}"#);
}

#[test]
fn special_tokens_are_found_or_missed() {
    let tok = tokenizer();
    let sp = Specials::resolve(&tok, None).unwrap();
    for (id, name) in [
        (sp.cls, "[CLS]"),
        (sp.sep, "[SEP]"),
        (sp.mask, "[MASK]"),
        (sp.pad, "[PAD]"),
    ] {
        assert_eq!(tok.token_to_id(name), Some(id));
    }
    assert_eq!(sp.mask_token, "[MASK]");
    let cfg = read(r#"{"cls_token": {"content": "[SEP]"}, "mask_token": "[PAD]"}"#);
    let other = Specials::resolve(&tok, Some(&cfg)).unwrap();
    assert_eq!((other.cls, other.mask), (sp.sep, sp.pad));
    let cfg = read(r#"{"cls_token": "<s>"}"#);
    let missing = Specials::resolve(&tok, Some(&cfg)).unwrap_err();
    assert_eq!(
        missing_token_message(&missing),
        "special token \"<s>\" missing from tokenizer"
    );
}

#[test]
fn texts_are_encoded_by_the_tokenizer() {
    let tok = tokenizer();
    let want = tok.encode("which team?", false).unwrap();
    assert_eq!(encode_text(&tok, "which team?").unwrap(), want.get_ids());
    let sp = Specials::resolve(&tok, None).unwrap();
    let want = tok.encode("{\"a\": 1}", false).unwrap();
    assert_eq!(
        encode_state(&tok, &sp, &read(r#"{"a": 1}"#)).unwrap(),
        want.get_ids()
    );
}

#[test]
fn rows_hold_the_question_then_the_state() {
    let tok = tokenizer();
    let sp = Specials::resolve(&tok, None).unwrap();
    let q = question(r#"{"t": "choice", "ins": "which?", "crit": {"billing": null, "other": null}}"#);
    let parts = question_parts(&tok, &sp, &q).unwrap();
    let state = encode_text(&tok, "the team").unwrap();
    let row = build_sequence(&tok, &sp, &q, &state, 128, 48, false).unwrap();
    let mut want = vec![sp.cls];
    want.extend(&parts.head);
    want.push(sp.sep);
    let markers = vec![want.len(), want.len() + parts.opts[0].len()];
    want.extend(&parts.opts[0]);
    want.extend(&parts.opts[1]);
    want.push(sp.sep);
    want.extend(&state);
    want.push(sp.sep);
    assert_eq!(row.ids, want);
    assert_eq!(row.markers, markers);
    assert_eq!((row.qtype, row.prefix_len), (QType::Choice, 0));
    assert!(row.markers.iter().all(|&m| row.ids[m] == sp.mask));

    let prefix = build_state_prefix(&sp, &state, 128, 48, false);
    let row = build_prefix_sequence(&tok, &sp, &q, &prefix, 48).unwrap();
    assert_eq!(row.prefix_len, prefix.len());
    assert_eq!(&row.ids[..prefix.len()], &prefix[..]);
    assert_eq!(prefix.first(), Some(&sp.cls));
    assert_eq!(prefix.last(), Some(&sp.sep));
    assert!(row.markers.iter().all(|&m| row.ids[m] == sp.mask));
}

#[test]
fn too_many_options_do_not_fit() {
    let tok = tokenizer();
    let sp = Specials::resolve(&tok, None).unwrap();
    let crit: Vec<String> = (0..60).map(|i| format!("\"o{i}\": null")).collect();
    let q = question(&format!(
        r#"{{"t": "choice", "ins": "x", "crit": {{{}}}}}"#,
        crit.join(", ")
    ));
    assert!(matches!(
        build_sequence(&tok, &sp, &q, &[], 40, 20, false),
        Err(SequenceError::OptionsTooLong(_))
    ));
}

#[test]
fn long_options_are_cut_before_the_head() {
    let parts = QuestionParts {
        head: vec![7; 10],
        opts: vec![vec![1; 200], vec![2; 3]],
    };
    let fit = fit_budget(parts, 192);
    assert_eq!(fit.opts[0].len(), OPTION_MAX_TOKENS + 1);
    assert_eq!(fit.opts[1], vec![2; 3]);
    assert_eq!(fit.head, vec![7; 10]);
}

#[test]
fn questions_can_be_copied() {
    let q = question(r#"{"t": "noul", "ins": "x", "labels": {"false": "no", "true": "yes"}}"#);
    assert_eq!(q.copy(), q);
    let v = read(r#"{"a": [1, -2, 2.5, "x", null, true], "b": {}}"#);
    assert_eq!(v.copy(), v);
    assert_eq!(compact(&v), serde_json::from_str::<serde_json::Value>(&compact(&v)).unwrap().to_string());
    assert_eq!(read("-2"), Json::Number(Num::Neg(-2)));
}

#[test]
fn settings_that_make_no_sense_are_refused() {
    use_settings(2, 2, 8, Err("tokenizer: truncation or padding makes no sense".to_string()));
    use_settings(2, 1, usize::MAX, Err("tokenizer: truncation or padding makes no sense".to_string()));
    // A text that needs no cut is encoded, whatever the stride.
    let n = encode_text(&tokenizer(), "which team handles this").unwrap().len();
    use_settings(n, n, 0, Ok(n));
    use_settings(n - 1, n - 1, 0, Err("tokenizer: truncation or padding makes no sense".to_string()));
    use_settings(100, 100, 40, Ok(40));
    // A text is cut to two tokens and padded to eight.
    use_settings(2, 1, 8, Ok(8));
    use_settings(2, 1, 0, Ok(2));
}

/// Encodes a text with a tokenizer that truncates and pads, and compares how many ids come out.
fn use_settings(length: usize, stride: usize, pad: usize, want: Result<usize, String>) {
    let mut tok = tokenizer();
    tok.with_truncation(Some(tokenizers::TruncationParams {
        max_length: length,
        stride,
        ..Default::default()
    }))
    .unwrap();
    tok.with_padding(Some(tokenizers::PaddingParams {
        strategy: tokenizers::PaddingStrategy::Fixed(pad),
        ..Default::default()
    }));
    let got = encode_text(&tok, "which team handles this");
    assert_eq!(got.map(|ids| ids.len()), want, "{length} {stride} {pad}");
}

#[test]
fn counted_tokens_are_those_of_rows() {
    let tok = tokenizer();
    let sp = Specials::resolve(&tok, None).unwrap();
    let p = QuestionParts {
        head: vec![7; 10],
        opts: vec![vec![1; 4], vec![2; 3], vec![3; 6]],
    };
    for which in [vec![], vec![1], vec![2, 0], vec![0, 1, 2]] {
        let opts: Vec<&[u32]> = which.iter().map(|&i: &usize| p.opts[i].as_slice()).collect();
        let n = p.len(&which);
        let alone = prefix_row(&sp, QType::Choice, &p.head, &opts, &[]);
        assert_eq!(alone.ids.len(), n);
        let joint = joint_row(&sp, QType::Choice, &p.head, &opts, &[5; 8]);
        assert_eq!(joint.ids.len(), n + 8 + 1);
    }
}
