use candle_rlcd::json::{compact, parse, Json};
use candle_rlcd::model::Layout;
use candle_rlcd::random::Rng;
use candle_rlcd::train::{
    check_length, check_step, checkpoint_config, count_steps, count_total, due_after,
    encoder_source, epoch_order, example_rng, micro_batch, missing_tensors, param_group, prune,
    resumed_steps, schedule_phase, source_name, split_eval, target_tables, tokenizer_source, Action,
    Course, Cursor, Due, EncoderSource, FittedJson, LayoutArg, Phase, Progress, SourceError,
    TokenizerSource,
};

fn names(v: &[&str]) -> Vec<String> {
    v.iter().map(|s| s.to_string()).collect()
}

fn scale(step: usize, warmup: usize, total: usize, min_ratio: f64) -> f64 {
    match schedule_phase(step, warmup, total) {
        Phase::Warmup(done, of) => done as f64 / of as f64,
        Phase::Decay(done, of) => {
            let t = done as f64 / of as f64;
            min_ratio + (1.0 - min_ratio) * 0.5 * (1.0 + (std::f64::consts::PI * t).cos())
        }
    }
}

#[test]
fn schedule_shape() {
    let s = |step: usize| scale(step, 10, 110, 0.1);
    assert!((s(0) - 0.1).abs() < 1e-9);
    assert!((s(9) - 1.0).abs() < 1e-9);
    assert!((s(10) - 1.0).abs() < 1e-9);
    assert!((s(60) - 0.55).abs() < 1e-9);
    assert!((s(110) - 0.1).abs() < 1e-9);
}

#[test]
fn an_epoch_sees_every_example_once_in_batches_of_like_length() {
    let lens: Vec<usize> = (0..1000).map(|i| (i * 7919) % 331).collect();
    let order = epoch_order(&lens, 5, 2, 8);
    let mut sorted = order.clone();
    sorted.sort();
    assert_eq!(sorted, (0..1000).collect::<Vec<usize>>());
    assert_eq!(epoch_order(&lens, 5, 2, 8), order);
    assert_ne!(epoch_order(&lens, 5, 3, 8), order);
    let spread: usize = order
        .chunks(8)
        .map(|c| {
            let l: Vec<usize> = c.iter().map(|&i| lens[i]).collect();
            l.iter().max().unwrap() - l.iter().min().unwrap()
        })
        .sum();
    let shuffled: usize = (0..1000usize)
        .collect::<Vec<usize>>()
        .chunks(8)
        .map(|c| {
            let l: Vec<usize> = c.iter().map(|&i| lens[i]).collect();
            l.iter().max().unwrap() - l.iter().min().unwrap()
        })
        .sum();
    assert!(spread * 5 < shuffled, "{spread} {shuffled}");
    assert!(epoch_order(&vec![], 5, 2, 8).is_empty());
}

#[test]
fn epochs_are_ordered_as_a_plain_shuffle_of_sorted_windows() {
    let lens: Vec<usize> = (0..23).map(|i| (i * 5) % 11).collect();
    let (seed, epoch, batch) = (9u64, 4usize, 3usize);
    let mut rng = Rng(seed ^ (epoch as u64).wrapping_mul(0xA24B_AED4_963E_E407));
    let mut idx: Vec<usize> = (0..23).collect();
    rng.shuffle(&mut idx);
    for w in idx.chunks_mut(batch * 50) {
        w.sort_by_key(|&i| lens[i]);
    }
    let chunks: Vec<Vec<usize>> = idx.chunks(batch).map(|c| c.to_vec()).collect();
    let mut which: Vec<usize> = (0..chunks.len()).collect();
    rng.shuffle(&mut which);
    let want: Vec<usize> = which.iter().flat_map(|&b| chunks[b].clone()).collect();
    assert_eq!(epoch_order(&lens, seed, epoch, batch), want);
    // A batch of everything is sorted as a whole.
    let all = epoch_order(&lens, seed, epoch, usize::MAX);
    assert_eq!(all, epoch_order(&lens, seed, epoch, 23));
    assert!(all.windows(2).all(|w| lens[w[0]] <= lens[w[1]]));
}

#[test]
fn held_out_examples_are_split() {
    let (a, b) = split_eval(11, 0, 3);
    assert_eq!((a.len(), b.len()), (5, 6));
    let mut all: Vec<usize> = a.iter().chain(b.iter()).cloned().collect();
    all.sort();
    assert_eq!(all, (0..11).collect::<Vec<usize>>());
    let (a, b) = split_eval(11, 4, 3);
    assert_eq!((a.len(), b.len()), (2, 2));
}

#[test]
fn steps_are_counted() {
    assert_eq!(count_steps(100, 8, 2), 7);
    assert_eq!(count_total(7, 3, None), 21);
    assert_eq!(count_total(7, 3, Some(5)), 5);
    assert_eq!(count_total(0, 3, None), 1);
    assert_eq!(micro_batch(12, 8, 100), (96, 100));
    assert_eq!(micro_batch(1, 8, 100), (8, 16));
    assert_eq!(
        due_after(10, 20, 5, 10, 3, true),
        Due { log: true, eval: true, save: false }
    );
    assert_eq!(
        due_after(20, 20, 0, 10, 10, true),
        Due { log: true, eval: false, save: false }
    );
    assert_eq!(example_rng(7, 0, 0), Rng(7));
    assert_eq!(example_rng(0, 1, 1), Rng((1 << 40) ^ 0x9E37_79B9));
}

fn run(course: &Course, mut at: Progress, until: usize) -> (Vec<(usize, usize)>, Progress) {
    let mut seen = vec![];
    while at.step < until {
        match at.next(course) {
            Action::Pass(c, fresh) => {
                assert_eq!(fresh, c.batch == 0 && c.epoch > 0);
                seen.push((c.epoch, c.batch));
            }
            Action::Update => assert_eq!(seen.len() % course.accum, 0),
            Action::Finish => break,
        }
    }
    (seen, at)
}

#[test]
fn a_resumed_run_goes_over_what_was_left() {
    let course = Course {
        total: 4,
        accum: 2,
        batches: 3,
    };
    let start = Progress {
        step: 0,
        cursor: Cursor { epoch: 0, batch: 0 },
        passes: 0,
    };
    let (whole, end) = run(&course, start, 4);
    let want = [(0, 0), (0, 1), (0, 2), (1, 0), (1, 1), (1, 2), (2, 0), (2, 1)];
    assert_eq!(whole, want);
    let (first, saved) = run(&course, start, 2);
    assert_eq!(saved.passes, 0);
    let (rest, again) = run(&course, saved, 4);
    assert_eq!([first, rest].concat(), whole);
    assert_eq!(again, end);
    let mut end = end;
    assert_eq!(end.next(&course), Action::Finish);
}

#[test]
fn runs_start_from_what_is_given() {
    assert_eq!(encoder_source(true, true, false, false), Ok(EncoderSource::Config));
    assert_eq!(encoder_source(false, true, true, true), Ok(EncoderSource::Resume));
    assert_eq!(encoder_source(false, false, true, true), Ok(EncoderSource::Init));
    assert_eq!(
        encoder_source(false, false, false, true),
        Ok(EncoderSource::InitEncoder)
    );
    assert_eq!(
        encoder_source(false, false, false, false),
        Err(SourceError::NoEncoder)
    );
    assert_eq!(
        tokenizer_source(false, EncoderSource::Config),
        Err(SourceError::NoTokenizer)
    );
    assert_eq!(
        tokenizer_source(true, EncoderSource::Config),
        Ok(TokenizerSource::Given)
    );
    assert_eq!(
        check_length(1024, 512),
        Some("max_len 1024 exceeds the encoder's 512 positions".to_string())
    );
    assert_eq!(check_length(512, 512), None);
    assert_eq!(
        check_step(3, 4),
        Some("optimizer step 3 != trainer step 4".to_string())
    );
    assert_eq!(check_step(4, 4), None);
    assert_eq!(resumed_steps(None, Some(3)), Some(3));
    assert_eq!(resumed_steps(Some(2), Some(3)), Some(2));
}

#[test]
fn tensors_are_found_under_their_other_names() {
    let known = names(&["model.layers.0.attn.Wo.weight", "head.x"]);
    assert_eq!(source_name("head.x", &known, false), Some("head.x".to_string()));
    assert_eq!(source_name("head.y", &known, false), None);
    assert_eq!(
        source_name("encoder.layers.0.attn.Wo.weight", &known, true),
        Some("model.layers.0.attn.Wo.weight".to_string())
    );
    let wanted = names(&["encoder.a", "encoder.b", "head.x", "head.y"]);
    assert_eq!(missing_tensors(&wanted, &names(&["a", "head.x"]), true), names(&["encoder.b"]));
    assert_eq!(
        missing_tensors(&wanted, &names(&["encoder.a", "head.x"]), false),
        names(&["encoder.b", "head.y"])
    );
    assert_eq!(param_group("temperature", 1), None);
    assert_eq!(param_group("encoder.x", 2), Some((0, true)));
    assert_eq!(param_group("head.x", 1), Some((1, false)));
}

#[test]
fn targets_are_padded() {
    let rows = vec![(vec![1, 2, 3], true), (vec![4, 5], false)];
    let t = target_tables(&rows, 4);
    assert_eq!(t.dist, vec![1, 2, 3, 0, 4, 5, 0, 0]);
    assert_eq!(t.mask, vec![1, 1, 1, 0, 1, 1, 0, 0]);
    assert_eq!(t.is_score, vec![1, 0]);
    assert_eq!(t.steps, vec![2, 1]);
}

#[test]
fn only_the_newest_checkpoints_stay() {
    let dirs = names(&["step-00000030", "step-00000010", "best", "step-00000020"]);
    assert_eq!(prune(&dirs, 2), vec![1]);
    assert_eq!(prune(&dirs, 0), vec![0, 1, 3]);
    assert!(prune(&dirs, 9).is_empty());
}

#[test]
fn checkpoints_say_how_they_were_trained() {
    let Json::Object(mut agent) = parse(br#"{"max_len": 128, "training": 1}"#).unwrap() else {
        panic!()
    };
    let list = parse(b"[1.0, 2.0, 3.0]").unwrap();
    let temps = FittedJson {
        by_type: list,
        by_options: parse(b"{}").unwrap(),
    };
    checkpoint_config(&mut agent, Some(temps), 40, 1, Json::Null, LayoutArg::Prefix);
    assert_eq!(
        compact(&Json::Object(agent)),
        r#"{"max_len":128,"training":{"updates":40,"epochs_started":2,"loss":null,"layout":"prefix","note":"trained by candle-rlcd with the direct proper-scoring loss"},"temperature":[1.0,2.0,3.0],"temperature_by_options":{},"calibration":{"by":"candle-rlcd train"}}"#
    );
    assert_eq!(Layout::from(LayoutArg::Laya), Layout::Laya);
}
