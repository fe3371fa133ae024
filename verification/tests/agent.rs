use candle_rlcd::agent::{
    decode, hand_back, put_by_name, question_message, read_questions, same_ids, split_runs,
    AnswerNumbers,
};
use candle_rlcd::float::{argmax, before, exceeds};
use candle_rlcd::json::{compact, parse, Json, Num};
use candle_rlcd::sequence::{Encoded, QType, Question};

fn read(text: &str) -> Json {
    parse(text.as_bytes()).unwrap()
}

fn bits(v: &[f32]) -> Vec<u32> {
    v.iter().map(|x| x.to_bits()).collect()
}

fn row(ids: &[u32], prefix_len: usize) -> Encoded {
    Encoded {
        ids: ids.to_vec(),
        markers: vec![],
        qtype: QType::Noul,
        prefix_len,
    }
}

fn float(t: &str) -> Json {
    Json::Number(Num::Float(t.to_string()))
}

fn numbers(probs: &[&str]) -> AnswerNumbers {
    AnswerNumbers {
        probs: probs.iter().map(|p| float(p)).collect(),
        confidence: float("0.61"),
        score: float("1.2"),
        act: float("0.9"),
    }
}

#[test]
fn rows_that_start_alike_run_together() {
    let rows = [
        row(&[1, 2, 9], 2),
        row(&[1, 2, 8], 2),
        row(&[1, 3, 9], 2),
        row(&[1, 2, 7], 2),
    ];
    assert_eq!(split_runs(&rows), vec![(0, 2), (2, 3), (3, 4)]);
    assert_eq!(split_runs(&[row(&[1], 0), row(&[2], 0)]), vec![(0, 2)]);
    assert!(split_runs(&[]).is_empty());
    assert!(same_ids(&[1, 2], &[1, 2]));
    assert!(!same_ids(&[1, 2], &[1, 3]));
    assert!(!same_ids(&[1, 2], &[1]));
}

#[test]
fn outputs_go_back_to_their_requests() {
    let groups = vec![vec![2, 1], vec![], vec![3]];
    let logits = vec![vec![1, 2, 0], vec![3, 0, 0], vec![4, 5, 6]];
    let act = vec![vec![7], vec![8], vec![9]];
    let r = hand_back(&groups, &logits, &act);
    assert_eq!(r.len(), 3);
    assert_eq!(r[0][0].logits, vec![1, 2]);
    assert_eq!(r[0][1].logits, vec![3]);
    assert_eq!(r[0][1].act_probs, vec![8]);
    assert!(r[1].is_empty());
    assert_eq!(r[2][0].logits, vec![4, 5, 6]);
}

#[test]
fn answers_name_the_likeliest_option() {
    let q = Question::from_json(&read(
        r#"{"t": "choice", "ins": "x", "crit": {"a": null, "b": null, "c": null}}"#,
    ))
    .unwrap();
    let a = decode(&q, &bits(&[0.2, 0.5, 0.3]), &numbers(&["0.2", "0.5", "0.3"]));
    assert_eq!(
        compact(&a),
        r#"{"type":"choice","choice":"b","probabilities":{"a":0.2,"b":0.5,"c":0.3},"confidence":0.61,"answer_confidence":0.5,"action":{"act_probability":0.9}}"#
    );
    let q = Question::from_json(&read(r#"{"t": "score", "ins": "x", "crit": ["lo", "hi"]}"#)).unwrap();
    let a = decode(&q, &bits(&[0.2, 0.8]), &numbers(&["0.2", "0.8"]));
    assert_eq!(
        compact(&a),
        r#"{"type":"score","score":1.2,"legend":{"0":"lo","1":"hi"},"probabilities":{"0":0.2,"1":0.8},"confidence":0.61,"answer_confidence":0.8,"action":{"act_probability":0.9}}"#
    );
    let q = Question::from_json(&read(r#"{"t": "noul", "ins": "x"}"#)).unwrap();
    let a = decode(&q, &bits(&[0.7, 0.3]), &numbers(&["0.7", "0.3"]));
    assert_eq!(
        compact(&a),
        r#"{"type":"noul","noul":0.3,"confidence":0.61,"answer_confidence":0.7,"action":{"act_probability":0.9}}"#
    );
}

#[test]
fn names_are_kept_once() {
    let names = vec!["a".to_string(), "b".to_string(), "a".to_string()];
    let vals = vec![read("1"), read("2"), read("3")];
    assert_eq!(
        compact(&Json::Object(put_by_name(&names, &vals))),
        r#"{"a":3,"b":2}"#
    );
}

#[test]
fn bad_questions_are_named() {
    let Json::Object(m) = read(r#"{"a": {"t": "noul", "ins": "x"}, "b\"": {"t": "y"}}"#) else {
        panic!()
    };
    let (id, e) = read_questions(&m).unwrap_err();
    assert_eq!(
        question_message(&id, &e),
        "question \"b\\\"\": unknown question type Some(\"y\")"
    );
    let Json::Object(m) = read(r#"{"a": {"t": "noul", "ins": "x"}}"#) else {
        panic!()
    };
    assert_eq!(read_questions(&m).unwrap().len(), 1);
}

#[test]
fn numbers_are_ordered_by_their_bits() {
    let v = [
        -f32::NAN,
        f32::NEG_INFINITY,
        -2.0,
        -1.0e-40,
        -0.0,
        0.0,
        1.0e-40,
        1.0,
        f32::INFINITY,
        f32::NAN,
    ];
    for a in v {
        for b in v {
            let (x, y) = (a.to_bits(), b.to_bits());
            assert_eq!(before(x, y), a.total_cmp(&b).is_lt(), "{a} {b}");
            assert_eq!(exceeds(x, y), a > b, "{a} {b}");
        }
    }
    assert_eq!(argmax(&bits(&[0.1, 0.7, 0.7])), 1);
    assert_eq!(argmax(&bits(&[-0.0, 0.0])), 0);
    assert_eq!(argmax(&vec![]), 0);
}
