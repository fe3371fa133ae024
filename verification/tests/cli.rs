use candle_rlcd::cli::{
    calibrated_model, check_names, civil_date, describe, limit, name_model, parse_dtype, pin,
    release_date, split_model_arg, unsupported, Dtype, EngineArgs,
};
use candle_rlcd::model::Layout;

fn names(v: &[&str]) -> Vec<String> {
    v.iter().map(|s| s.to_string()).collect()
}

#[test]
fn bf16_on_cpu_is_rejected_clearly() {
    let err = unsupported(true, parse_dtype("bf16").unwrap()).unwrap();
    assert!(err
        .to_string()
        .contains("BF16 needs a CUDA or Metal device"));
    assert_eq!(unsupported(false, Dtype::Bf16), None);
    assert_eq!(unsupported(true, Dtype::F16), None);
    assert_eq!(parse_dtype("f32"), Ok(Dtype::F32));
    assert_eq!(parse_dtype("f64"), Err("unknown dtype f64".to_string()));
}

#[test]
fn workers_share_the_cores() {
    let args = EngineArgs {
        workers: None,
        threads_per_worker: None,
        max_batch_rows: None,
        batch_wait: 0,
        max_queue: 0,
        no_adaptive: false,
    };
    let c = args.config(8, true);
    assert_eq!(
        (c.workers, c.threads_per_worker, c.max_batch_rows, c.max_queue, c.adaptive),
        (8, 1, 1, 1, true)
    );
    let c = args.config(8, false);
    assert_eq!((c.workers, c.threads_per_worker, c.max_batch_rows), (1, 8, 64));
    let c = EngineArgs {
        workers: Some(3),
        no_adaptive: true,
        ..args
    }
    .config(8, true);
    assert_eq!((c.workers, c.threads_per_worker, c.adaptive), (3, 2, false));
    assert_eq!((limit(0), limit(5)), (None, Some(5)));
}

#[test]
fn models_are_named() {
    assert_eq!(
        split_model_arg("a=org/m"),
        (Some("a".to_string()), "org/m".to_string())
    );
    assert_eq!(split_model_arg("dir/x=y"), (None, "dir/x=y".to_string()));
    assert_eq!(split_model_arg("=x"), (None, "=x".to_string()));
    let (a, s) = (Some("a".to_string()), Some("s".to_string()));
    assert_eq!(name_model(&a, &s, "own", true), "a");
    assert_eq!(name_model(&None, &s, "own", true), "s");
    assert_eq!(name_model(&None, &s, "own", false), "own");
    assert_eq!(check_names(&names(&["a", "b"])), None);
    assert_eq!(
        check_names(&names(&["a", "b", "a"])),
        Some("two models are named \"a\"; name them with --model <name>=<model>".to_string())
    );
    let served = names(&["a", "b"]);
    assert_eq!(calibrated_model(&None, &served), Ok("a".to_string()));
    assert_eq!(calibrated_model(&Some("b".to_string()), &served), Ok("b".to_string()));
    assert_eq!(
        calibrated_model(&Some("c".to_string()), &served),
        Err("--calibration names model \"c\", which isn't served".to_string())
    );
    assert_eq!(pin("laya", "0123456789"), "laya@0123456");
    assert_eq!(
        describe(Layout::Prefix, Some(("org/m", "abc"))),
        "modernbert + rlcd system one model served by candle-rlcd (prefix layout); org/m at abc"
    );
}

#[test]
fn days_have_dates() {
    for (seconds, day) in [
        (0, "1970-01-01"),
        (86_399, "1970-01-01"),
        (86_400, "1970-01-02"),
        (951_782_400, "2000-02-29"),
        (951_868_800, "2000-03-01"),
        (1_709_164_800, "2024-02-29"),
        (1_735_689_599, "2024-12-31"),
        (4_107_542_400, "2100-03-01"),
        (253_402_300_799, "9999-12-31"),
        (253_402_300_800, "10000-01-01"),
    ] {
        assert_eq!(release_date(seconds), day);
    }
    // Every day follows the one before.
    let mut last = civil_date(0);
    for d in 1..200_000 {
        let (y, m, day) = civil_date(d);
        let next_month = if last.1 == 12 {
            (last.0 + 1, 1, 1)
        } else {
            (last.0, last.1 + 1, 1)
        };
        assert!((y, m, day) == (last.0, last.1, last.2 + 1) || (y, m, day) == next_month);
        last = (y, m, day);
    }
}
