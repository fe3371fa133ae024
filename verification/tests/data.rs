use candle_rlcd::augment::{augment, AugmentConfig, Example};
use candle_rlcd::data::{
    example_texts, is_distribution, line_examples, load_jsonl, parse_target, record_examples,
    LineError, RecordError, Target, TargetError,
};
use candle_rlcd::json::{parse, Json, Num};
use candle_rlcd::random::Rng;
use candle_rlcd::sequence::{Criteria, QType, Question};

fn read(text: &str) -> Json {
    parse(text.as_bytes()).unwrap()
}

fn question(text: &str) -> Question {
    Question::from_json(&read(text)).unwrap()
}

fn number(n: &Num) -> f32 {
    match n {
        Num::Nat(n) => *n as f32,
        Num::Neg(n) => *n as f32,
        Num::Float(t) => t.parse::<f64>().unwrap() as f32,
    }
}

/// The distribution that a target stands for, over `k` options.
fn weights(t: &Target, k: usize) -> Vec<f32> {
    let mut v = vec![0.0; k];
    match t {
        Target::OneHot(i) => v[*i] = 1.0,
        Target::Yes(p) => {
            let p = number(p).clamp(0.0, 1.0);
            v = vec![1.0 - p, p];
        }
        Target::Soft(w) => v = w.iter().map(number).collect(),
        Target::Sparse(w) => {
            for (i, p) in w {
                v[*i] = number(p);
            }
        }
    }
    let sum: f32 = v.iter().sum();
    v.iter().map(|x| x / sum).collect()
}

#[test]
fn targets_parse_in_every_form() {
    let q = question(r#"{"t": "choice", "ins": "x", "crit": {"a": null, "b": null, "c": null}}"#);
    let target = |q: &Question, v: &str, k: usize| weights(&parse_target(q, &read(v)).unwrap(), k);
    assert_eq!(target(&q, r#""b""#, 3), vec![0.0, 1.0, 0.0]);
    assert_eq!(target(&q, "2", 3), vec![0.0, 0.0, 1.0]);
    assert_eq!(target(&q, "[1, 1, 2]", 3), vec![0.25, 0.25, 0.5]);
    assert_eq!(target(&q, r#"{"c": 1.0}"#, 3), vec![0.0, 0.0, 1.0]);
    assert!(parse_target(&q, &read(r#""d""#)).is_err());
    let n = question(r#"{"t": "noul", "ins": "x"}"#);
    assert_eq!(target(&n, "true", 2), vec![0.0, 1.0]);
    assert_eq!(target(&n, "0.25", 2), vec![0.75, 0.25]);
}

#[test]
fn bad_targets_say_why() {
    let q = question(r#"{"t": "choice", "ins": "x", "crit": {"a": null, "b": null}}"#);
    let why = |v: &str| parse_target(&q, &read(v)).unwrap_err();
    assert_eq!(why("2"), TargetError::OutOfRange(2, 2));
    assert_eq!(why("-1"), TargetError::NotAnIndex);
    assert_eq!(why("0.5"), TargetError::NotAnIndex);
    assert_eq!(
        why(r#""d""#),
        TargetError::NotAnOption("d".to_string(), vec!["a".to_string(), "b".to_string()])
    );
    assert_eq!(why("[1]"), TargetError::WrongCount(1, 2));
    assert_eq!(why(r#"[1, "x"]"#), TargetError::NotNumbers);
    assert_eq!(why(r#"{"z": 1}"#), TargetError::UnknownOption("z".to_string()));
    assert_eq!(why(r#"{"a": "x"}"#), TargetError::NotProbabilities);
    assert_eq!(why("null"), TargetError::Unsupported("null".to_string()));
    assert_eq!(why("true"), TargetError::Unsupported("true".to_string()));
}

#[test]
fn targets_are_distributions() {
    let q = question(r#"{"t": "choice", "ins": "x", "crit": {"a": null, "b": null, "c": null}}"#);
    let target = |v: &str| parse_target(&q, &read(v));
    for v in [
        "[-1, 2, 0]",
        "[0, 0, 0]",
        "[0, 0.0, -0.0]",
        "{}",
        r#"{"a": 0}"#,
        r#"{"a": 1, "b": -3}"#,
    ] {
        assert_eq!(target(v), Err(TargetError::NotADistribution), "{v}");
    }
    assert_eq!(
        TargetError::NotADistribution.message(),
        "target must be a non-negative distribution"
    );
    // What is wrong with an entry comes first.
    assert_eq!(target("[-1, 2]"), Err(TargetError::WrongCount(2, 3)));
    assert_eq!(target(r#"[0, 0, "x"]"#), Err(TargetError::NotNumbers));
    assert_eq!(target(r#"{"a": 0, "z": 1}"#), Err(TargetError::UnknownOption("z".to_string())));
    assert!(target("[0, 1, 0]").is_ok());
    assert!(target(r#"{"b": 0.5, "c": 0}"#).is_ok());
    // Decimals are settled as they are rounded: the smallest come to nothing.
    assert!(target("[-1e-60, 1, 0]").is_ok());
    let rounded = |v: &[f64]| is_distribution(&v.iter().map(|x| (*x as f32).to_bits()).collect());
    assert!(rounded(&[-1e-60, 1.0, 0.0]));
    assert!(rounded(&[1e300, 0.0]));
    assert!(!rounded(&[-0.5, 1.0]));
    assert!(!rounded(&[1e-60, -0.0]));
    assert!(!rounded(&[f64::NAN, 1.0]));
    assert!(!rounded(&[]));
    // A record says which question it is.
    let rec = read(
        r#"{"questions": {"q": {"t": "noul", "ins": "x"}}, "targets": {"q": [0, 0]}}"#,
    );
    assert_eq!(
        record_examples(&rec),
        Err(RecordError::Target("q".to_string(), TargetError::NotADistribution))
    );
}

#[test]
fn augmentation_keeps_target_on_the_same_option() {
    let rec = read(
        r#"{"state": "s", "questions": {"q": {"t": "choice", "ins": "x",
            "crit": {"a": "first", "b": "second", "c": null}}}, "targets": {"q": "c"}}"#,
    );
    let l = record_examples(&rec).unwrap().remove(0);
    let ex = Example {
        state: l.state,
        target: weights(&l.target, 3).iter().map(|w| w.to_bits()).collect(),
        question: l.question,
    };
    let mut rng = Rng(7);
    let cfg = AugmentConfig {
        shuffle_options: 1 << 53,
        opaque_labels: 1 << 53,
    };
    for _ in 0..20 {
        let a = augment(&ex, &cfg, &mut rng);
        let Criteria::Choice(opts) = &a.question.crit else {
            panic!()
        };
        let hot = a.target.iter().position(|&x| x == 1.0f32.to_bits()).unwrap();
        // "c" had no criterion, so its old label became the criterion.
        assert_eq!(opts[hot].1, Json::String("c".to_string()));
    }
}

#[test]
fn nothing_is_augmented_without_a_chance_of_it() {
    let q = question(r#"{"t": "choice", "ins": "x", "crit": {"a": "1", "b": "2", "c": "3"}}"#);
    let ex = Example {
        state: Json::Null,
        question: q,
        target: vec![1, 2, 3],
    };
    let cfg = AugmentConfig {
        shuffle_options: 0,
        opaque_labels: 0,
    };
    assert_eq!(augment(&ex, &cfg, &mut Rng(1)), ex);
    let usual = AugmentConfig::default();
    assert_eq!(usual.shuffle_options as f64 / (1u64 << 53) as f64, 1.0);
    let n = usual.opaque_labels;
    for x in n - 2..n + 2 {
        assert_eq!(x < n, (x as f64 / (1u64 << 53) as f64) < 0.3);
    }
}

#[test]
fn records_give_one_example_per_target() {
    let rec = read(
        r#"{"state": {"a": 1}, "questions": {
            "q": {"t": "noul", "ins": "yes?"},
            "r": {"type": "score", "instructions": "how?", "criteria": ["lo", "hi"]},
            "s": {"t": "noul", "ins": "unlabelled"}},
          "targets": {"r": 1, "q": false}}"#,
    );
    let ex = record_examples(&rec).unwrap();
    assert_eq!(ex.len(), 2);
    assert_eq!(ex[0].question.t, QType::Noul);
    assert_eq!(ex[0].target, Target::OneHot(0));
    assert_eq!(ex[1].question.t, QType::Score);
    assert_eq!(ex[1].target, Target::OneHot(1));
    assert_eq!(
        example_texts(&ex[1].state, &ex[1].question),
        vec![
            r#"{"a": 1}"#.to_string(),
            "score question: how?".to_string(),
            "level 0: lo".to_string(),
            "level 1: hi".to_string(),
        ]
    );
}

#[test]
fn accepted_answers_stand_in_for_targets() {
    let qs = r#""questions": {
        "team": {"t": "choice", "crit": {"a": "", "b": ""}},
        "how": {"t": "score", "crit": ["lo", "hi"]},
        "is": {"t": "noul"}}"#;
    let logged = read(&format!(
        r#"{{"state": "x", {qs}, "answers": {{
            "team": {{"type": "choice", "choice": "b", "confidence": 0.5}},
            "how": {{"type": "score", "score": 0.25, "probabilities": {{"0": 0.75, "1": 0.25}}}},
            "is": {{"type": "noul", "noul": 0.75}}}}}}"#
    ));
    let ex = record_examples(&logged).unwrap();
    assert_eq!(ex.len(), 3);
    assert_eq!(ex[0].target, Target::OneHot(1));
    assert_eq!(weights(&ex[1].target, 2), vec![0.75, 0.25]);
    assert_eq!(weights(&ex[2].target, 2), vec![0.25, 0.75]);
    // Plain labels do as well, and targets come first.
    let plain = read(&format!(r#"{{{qs}, "answers": {{"team": "a"}}}}"#));
    assert_eq!(record_examples(&plain).unwrap()[0].target, Target::OneHot(0));
    let both = read(&format!(
        r#"{{{qs}, "answers": {{"team": "a"}}, "targets": {{"team": "b"}}}}"#
    ));
    assert_eq!(record_examples(&both).unwrap()[0].target, Target::OneHot(1));
}

#[test]
fn bad_records_say_where() {
    let why = |v: &str| record_examples(&read(v)).unwrap_err();
    assert_eq!(why(r#"{"targets": {}}"#), RecordError::NoQuestions);
    assert_eq!(why(r#"{"questions": {}}"#), RecordError::NoTargets);
    assert!(matches!(
        why(r#"{"questions": {"q": {"t": "x"}}, "targets": {"q": 1}}"#),
        RecordError::Question(id, _) if id == "q"
    ));
    assert!(matches!(
        why(r#"{"questions": {"q": {"t": "noul", "ins": "x"}}, "targets": {"q": "z"}}"#),
        RecordError::Target(id, _) if id == "q"
    ));
    assert_eq!(line_examples("  \n"), Ok(vec![]));
    assert!(matches!(line_examples("{"), Err(LineError::BadJson(_))));
    assert_eq!(
        line_examples(r#"{"questions": {}}"#),
        Err(LineError::Record(RecordError::NoTargets))
    );
}

#[test]
fn files_hold_a_record_per_line() {
    let rec = r#"{"state": "s", "questions": {"q": {"t": "noul", "ins": "x"}}, "targets": {"q": true}}"#;
    let file = format!("{rec}\r\n\n  \n{rec}");
    let ex = load_jsonl(&file).unwrap();
    assert_eq!(ex.len(), 2);
    assert_eq!(ex[1].target, Target::OneHot(1));
    let (line, e) = load_jsonl(&format!("{rec}\n\n{{\n{rec}\n")).unwrap_err();
    assert_eq!(line, 3);
    assert!(matches!(e, LineError::BadJson(_)));
    assert_eq!(load_jsonl(""), Ok(vec![]));
}
