use candle_rlcd::calibrate::{
    calibration_file, cell_is_due, count_groups, current_temperatures, group, order_questions,
    refit, report, scoring_progress, type_is_due, write_into, CalibrateConfig, Holdout, CELLS,
};
use candle_rlcd::config::{
    apply_calibration, default_head_layers, default_temperature, effective_temperature, AgentConfig,
};
use candle_rlcd::json::{compact, get, natural, parse, string, Json, Num};
use candle_rlcd::model::Layout;
use candle_rlcd::sequence::QType;

fn tiny() -> AgentConfig {
    AgentConfig {
        layout: Layout::Laya,
        head_layers: default_head_layers(),
        act_costs: vec![],
        max_len: 128,
        head_max_len: 48,
        temperature: default_temperature(),
        temperature_by_options: vec![("choice:6-10".to_string(), 0.7f64.to_bits())],
        calibration: None,
    }
}

fn field<'a>(v: &'a Json, key: &str) -> &'a Json {
    match v {
        Json::Object(o) => get(o, key).unwrap(),
        _ => panic!("no object"),
    }
}

fn float(x: u64) -> Json {
    Json::Number(Num::Float(format!("{:?}", f64::from_bits(x))))
}

#[test]
fn calibrate_refits_from_jev_shaped_labels() {
    let laya = tiny();
    let before = current_temperatures(&laya);
    let cfg = CalibrateConfig {
        min_examples: 2,
        ..CalibrateConfig::default()
    };
    // Three choices with three options, two yes-or-no questions and one score.
    let items = vec![
        (QType::Choice, 3),
        (QType::Noul, 2),
        (QType::Choice, 3),
        (QType::Score, 4),
        (QType::Noul, 2),
        (QType::Choice, 3),
    ];
    let order = order_questions(items.len(), cfg.seed);
    let g = group(&items, &order);
    let counts = count_groups(&g);
    assert_eq!(compact(field(&counts, "choice")), "3");
    assert_eq!(compact(field(&counts, "choice:3-5")), "3");
    // A fit gives 1.5 for choices and 0.8 for yes-or-no questions.
    let fit = |v: &Vec<usize>| match items[v[0]].0 {
        QType::Choice => 1.5f64.to_bits(),
        _ => 0.8f64.to_bits(),
    };
    let types: Vec<Option<u64>> = g
        .types
        .iter()
        .map(|v| if type_is_due(v.len(), cfg.min_examples) { Some(fit(v)) } else { None })
        .collect();
    let cells: Vec<Option<u64>> = g
        .cells
        .iter()
        .map(|v| if cell_is_due(v.len(), cfg.min_examples) { Some(fit(v)) } else { None })
        .collect();
    assert_eq!(cells.len(), CELLS);
    let t = refit(&before, &types, &cells);
    // choice (3 questions) and noul (2) are refit; score (1) keeps the model's temperature.
    assert_eq!(t.by_type[1], before.by_type[1]);
    let fitted = f64::from_bits(t.by_type[0]);
    assert!((0.5..=5.0).contains(&fitted));
    let by_options: Vec<(String, Json)> =
        t.by_options.iter().map(|(k, x)| (k.clone(), float(*x))).collect();
    let by_type: Vec<Json> = t.by_type.iter().map(|x| float(*x)).collect();
    let file = calibration_file(
        Json::Array(by_type),
        Json::Object(by_options),
        string("labels.jsonl"),
        items.len(),
        cfg.min_examples,
    );
    assert_eq!(
        compact(field(field(&file, "temperature_by_options"), "choice:3-5")),
        "1.5"
    );
    match field(&file, "temperature_by_options") {
        Json::Object(o) => assert!(get(o, "choice:11+").is_none()),
        _ => panic!("no object"),
    }
    assert_eq!(
        *field(field(&file, "calibration"), "by"),
        string("candle-rlcd calibrate")
    );
    let r = report(
        items.len(),
        &Some(Holdout {
            fit_on: 3,
            measured_on: 3,
            raw: natural(1),
            current: natural(2),
            calibrated: natural(3),
        }),
        counts,
        Json::Null,
        Json::Null,
    );
    assert_eq!(compact(field(&r, "questions")), "6");
    assert_eq!(compact(field(field(&r, "examples_by_bucket"), "choice")), "3");
    assert_eq!(compact(field(field(&r, "holdout"), "calibrated")), "3");

    let mut applied = tiny();
    apply_calibration(&mut applied, t.by_type, t.by_options, None).unwrap();
    assert_eq!(
        f64::from_bits(effective_temperature(&applied, QType::Choice, 3)),
        fitted
    );
}

#[test]
fn current_temperatures_are_what_answers_use() {
    let cfg = tiny();
    let t = current_temperatures(&cfg);
    for q in [QType::Choice, QType::Score, QType::Noul] {
        for k in [2, 3, 4, 6, 9, 11, 50] {
            if (q == QType::Noul && k != 2) || (q == QType::Score && k > 10) {
                continue;
            }
            assert_eq!(t.get(q, k), effective_temperature(&cfg, q, k), "{q:?} {k}");
        }
    }
}

#[test]
fn calibrating_keeps_other_settings() {
    let Json::Object(mut cfg) = parse(br#"{"max_len": 128, "temperature": [1.0]}"#).unwrap() else {
        panic!()
    };
    let file = parse(
        br#"{"temperature": [2.0], "temperature_by_options": {}, "calibration": {"by": "x"}, "other": 1}"#,
    )
    .unwrap();
    write_into(&mut cfg, &file);
    assert_eq!(
        compact(&Json::Object(cfg)),
        r#"{"max_len":128,"temperature":[2.0],"temperature_by_options":{},"calibration":{"by":"x"}}"#
    );
}

#[test]
fn questions_are_split_at_random_and_progress_is_told() {
    let mut order = order_questions(20, 0);
    assert_ne!(order, (0..20).collect::<Vec<usize>>());
    order.sort();
    assert_eq!(order, (0..20).collect::<Vec<usize>>());
    assert_eq!(scoring_progress(9, 8, 100), Some(80));
    assert_eq!(scoring_progress(8, 8, 100), None);
    assert_eq!(scoring_progress(12, 8, 100), Some(100));
    assert_eq!(scoring_progress(9, 8, 50), None);
    let d = CalibrateConfig::default();
    assert_eq!((d.min_examples, d.batch, d.seed), (30, 8, 0));
    assert!(!cell_is_due(0, 0));
    assert!(type_is_due(0, 0));
}
