use candle_rlcd::agent::{encode, RowOutput};
use candle_rlcd::config::{default_head_layers, default_temperature, AgentConfig};
use candle_rlcd::float::find_highest;
use candle_rlcd::json::{parse, Json};
use candle_rlcd::model::Layout;
use candle_rlcd::pipeline::{chunk_spans, fit_question, option_tokens, pack, Budget};
use candle_rlcd::plan::{rows_tokens, Plan, PlanError};
use candle_rlcd::sequence::{encode_text, QType, Question, QuestionParts, Specials};
use candle_rlcd::tokenizer::train_tokenizer;
use candle_rlcd::tournament::{merge_rounds, next_round, Placement};

struct Tiny {
    tok: tokenizers::Tokenizer,
    sp: Specials,
    cfg: AgentConfig,
    budget: Budget,
}

/// A small model's encoding: rows of 128 tokens, questions of 48, and 512 positions.
fn load(layout: Layout) -> Tiny {
    let texts = vec![
        "opt opt The package arrived damaged and I want a refund. hello hi short".to_string(),
        "Which team handles this? billing payments shipping delivery other category".to_string(),
        "How urgent? low medium high level number Does the customer want a refund?".to_string(),
        "choice question: score question: noul question: the statement holds refunds".to_string(),
        "false: no, the statement does not hold true: yes, the statement holds".to_string(),
    ];
    let twice: Vec<String> = texts.iter().chain(texts.iter()).cloned().collect();
    let tok = train_tokenizer(twice, 1200).unwrap();
    let sp = Specials::resolve(&tok, None).unwrap();
    let cfg = AgentConfig {
        layout,
        head_layers: default_head_layers(),
        act_costs: vec![],
        max_len: 128,
        head_max_len: 48,
        temperature: default_temperature(),
        temperature_by_options: vec![],
        calibration: None,
    };
    let budget = Budget::for_model(cfg.max_len, cfg.head_max_len, 512);
    Tiny { tok, sp, cfg, budget }
}

impl Tiny {
    fn plan(&self, state: &Json, questions: Vec<Question>) -> Plan {
        Plan::new(&self.tok, &self.sp, self.cfg.layout, &self.budget, state, questions).unwrap()
    }
}

fn read(text: &str) -> Json {
    parse(text.as_bytes()).unwrap()
}

fn q(text: &str) -> Question {
    Question::from_json(&read(text)).unwrap()
}

fn questions() -> Vec<Question> {
    vec![
        q(r#"{"t": "choice", "ins": "Which team handles this?", "crit": {"billing": "payments", "shipping": "delivery", "other": null}}"#),
        q(r#"{"t": "score", "ins": "How urgent?", "crit": ["low", "medium", "high"]}"#),
        q(r#"{"t": "noul", "ins": "Does the customer want a refund?"}"#),
    ]
}

fn words(n: usize) -> String {
    (0..n)
        .map(|i| format!("word{} ", i % 97))
        .collect::<String>()
}

fn text(s: &str) -> Json {
    Json::String(s.to_string())
}

/// The logits of every option, from how each comes about.
fn place(places: &[Placement], k: usize) -> Vec<f32> {
    let mut l = vec![f32::NAN; k];
    for p in places {
        let own = f32::from_bits(p.logit);
        l[p.option] = match p.leader {
            None => own,
            Some(lead) => l[lead] - f32::from_bits(p.leader_logit) + own,
        };
    }
    l
}

fn bits(v: &[f32]) -> Vec<u32> {
    v.iter().map(|x| x.to_bits()).collect()
}

fn parts(lens: &[usize]) -> QuestionParts {
    QuestionParts {
        head: vec![0; 10],
        opts: lens.iter().map(|&l| vec![1; l]).collect(),
    }
}

#[test]
fn chunks_cover_the_state_with_overlap() {
    assert_eq!(chunk_spans(100, 200, 16), vec![(0, 100)]);
    assert_eq!(chunk_spans(0, 200, 16), vec![(0, 0)]);
    let s = chunk_spans(1000, 300, 40);
    assert_eq!(s.first().unwrap().0, 0);
    assert_eq!(s.last().unwrap().1, 1000);
    for w in s.windows(2) {
        assert!(w[1].0 < w[0].1, "chunks overlap: {s:?}");
        assert!(w[0].1 - w[1].0 <= 40);
    }
    assert!(s.iter().all(|(a, b)| b - a <= 300), "{s:?}");
}

#[test]
fn chunks_are_even() {
    assert_eq!(
        chunk_spans(1000, 300, 40),
        vec![(0, 280), (240, 520), (480, 760), (720, 1000)]
    );
    // The overlap is at most half the room, and a room of nothing is a room of one.
    assert_eq!(chunk_spans(6, 4, 100), vec![(0, 4), (2, 6)]);
    assert_eq!(chunk_spans(2, 0, 0), vec![(0, 1), (1, 2)]);
}

#[test]
fn packing_keeps_order_and_pairs() {
    let p = parts(&[10; 25]);
    let all: Vec<usize> = (0..25).collect();
    let b = pack(&p, &all, 60);
    assert!(b.iter().all(|b| b.len() >= 2));
    assert!(b.iter().all(|b| option_tokens(&p, b) <= 60), "{b:?}");
    assert_eq!(b.concat(), all);
    // One option longer than the limit still travels with a partner.
    let p = parts(&[100, 5, 5, 5]);
    let b = pack(&p, &[0, 1, 2, 3], 50);
    assert!(b.iter().all(|b| b.len() >= 2), "{b:?}");
}

#[test]
fn packing_keeps_the_limit_where_possible() {
    // Even batches would take 2 and 16 tokens.
    let p = parts(&[1, 1, 8, 7, 1]);
    let b = pack(&p, &[0, 1, 2, 3, 4], 10);
    assert_eq!(b, vec![vec![0, 1, 2], vec![3, 4]]);
    // A lone option at the end is given a partner that leaves room.
    let p = parts(&[5, 5, 4, 6]);
    let b = pack(&p, &[0, 1, 2, 3], 10);
    assert_eq!(b, vec![vec![0, 1], vec![2, 3]]);
    // No split keeps a limit of nine.
    let b = pack(&p, &[0, 1, 2, 3], 9);
    assert_eq!(b.concat(), [0, 1, 2, 3]);
    assert!(b.iter().all(|b| b.len() >= 2), "{b:?}");
}

#[test]
fn long_instructions_keep_their_end() {
    let mut p = QuestionParts {
        head: (0..100).collect(),
        opts: vec![vec![1; 5], vec![1; 5]],
    };
    let t = fit_question(&mut p, &[vec![0, 1]], 60);
    assert_eq!(p.len(&[0, 1]), 60);
    assert_eq!(t.instructions, 53);
    assert_eq!(&p.head[..8], &(0..8).collect::<Vec<u32>>()[..]);
    assert_eq!(*p.head.last().unwrap(), 99);
}

fn rounds_of(logits: Vec<Vec<Vec<f32>>>) -> Vec<Vec<Vec<u32>>> {
    logits
        .iter()
        .map(|r| r.iter().map(|l| bits(l)).collect())
        .collect()
}

#[test]
fn merged_logits_chain_through_leaders() {
    // Round 1: [0,1,2] and [3,4,5]; leaders 1 and 3 meet in the final.
    let rounds = vec![vec![vec![0, 1, 2], vec![3, 4, 5]], vec![vec![1, 3]]];
    let logits = rounds_of(vec![
        vec![vec![0.0, 2.0, -1.0], vec![5.0, 4.0, 1.0]],
        vec![vec![1.0, 0.5]],
    ]);
    let l = place(&merge_rounds(6, &rounds, &logits), 6);
    assert_eq!(l[1], 1.0);
    assert_eq!(l[3], 0.5);
    // Option 0 is 2 below its leader (1) in round one, so 2 below it in the merge.
    assert_eq!(l[0], -1.0);
    assert_eq!(l[2], -2.0);
    assert_eq!(l[4], -0.5);
    assert_eq!(l[5], -3.5);
}

#[test]
fn leaders_and_then_runners_up_advance() {
    let p = parts(&[10; 6]);
    let budget = Budget {
        max_len: 128,
        max_window: 512,
        option_budget: 50,
        min_state: 16,
        overlap: 8,
    };
    let round = vec![vec![0, 1, 2], vec![3, 4, 5]];
    let logits = vec![bits(&[0.0, 2.0, -1.0]), bits(&[1.0, 4.0, 5.0])];
    // Room for four of ten tokens each: both leaders and both runners-up.
    assert_eq!(next_round(&p, &round, &logits, &budget, 512), vec![vec![0, 1, 4, 5]]);
    // A logit that is not a number ranks highest, as the total order of numbers has it.
    let logits = vec![bits(&[0.0, 2.0, f32::NAN]), bits(&[-0.0, 0.0, -1.0])];
    assert_eq!(next_round(&p, &round, &logits, &budget, 512), vec![vec![1, 2, 3, 4]]);
    // Beside a long state only the leaders have room.
    assert_eq!(next_round(&p, &round, &logits, &budget, 40), vec![vec![2, 4]]);
}

#[test]
fn noul_chunks_take_the_strongest_yes() {
    let o = [[3.0f32, -3.0], [0.0, 1.0], [4.0, -4.0]];
    let yes: Vec<u32> = o.iter().map(|l| (l[1] - l[0]).to_bits()).collect();
    assert_eq!(o[find_highest(&yes)], [0.0, 1.0]);
    // Of equal ones the last counts.
    assert_eq!(find_highest(&bits(&[1.0, 2.0, 2.0])), 2);
}

#[test]
fn short_requests_encode_exactly_as_laya_does() {
    for layout in [Layout::Laya, Layout::Prefix] {
        let laya = load(layout);
        let state = text("The package arrived damaged and I want a refund.");
        let mut plan = laya.plan(&state, questions());
        let rows = plan.rows();
        let old = encode(&laya.tok, &laya.sp, &laya.cfg, &state, &questions()).unwrap();
        assert_eq!(rows.len(), old.len());
        for (a, b) in rows.iter().zip(&old) {
            assert_eq!(a.ids, b.ids, "{layout:?}");
            assert_eq!(a.markers, b.markers);
        }
    }
}

#[test]
fn many_options_are_answered_in_batches() {
    let laya = load(Layout::Laya);
    let crit: Vec<String> = (0..200)
        .map(|i| format!(r#""opt{i}": "category number {i}""#))
        .collect();
    let big = q(&format!(
        r#"{{"t": "choice", "ins": "Which category?", "crit": {{{}}}}}"#,
        crit.join(", ")
    ));
    // The trained encoding refuses this many options.
    let one = [big.copy()];
    assert!(encode(&laya.tok, &laya.sp, &laya.cfg, &text("hello"), &one).is_err());
    let mut plan = laya.plan(&text("hello"), vec![big]);
    let rounds = plan.rounds(0);
    assert!(rounds[0] > 1, "{rounds:?}");
    let mut tokens = 0;
    loop {
        assert_eq!(plan.next_tokens() == 0, plan.is_done());
        let promised = plan.next_tokens();
        let rows = plan.rows();
        if rows.is_empty() {
            break;
        }
        assert_eq!(rows_tokens(&rows), promised);
        tokens += promised;
        for r in &rows {
            assert!(r.ids.len() <= laya.cfg.max_len, "{}", r.ids.len());
        }
        let groups = plan.outputs_of(rows.len()).unwrap();
        assert_eq!(plan.outputs_of(rows.len() + 1), Err(rows.len()));
        // One chunk, so each group is one row. The larger its first tokens, the likelier.
        let outs: Vec<RowOutput> = groups
            .iter()
            .map(|g| {
                let r = &rows[g[0]];
                let l: Vec<f32> = r
                    .markers
                    .iter()
                    .map(|&m| r.ids[m + 1..m + 3].iter().sum::<u32>() as f32 / 1000.0)
                    .collect();
                RowOutput {
                    logits: bits(&l),
                    act_probs: bits(&[1.0]),
                }
            })
            .collect();
        plan.feed(&outs);
    }
    assert_eq!(plan.input_tokens(), tokens);
    let verdicts = plan.finish();
    let l = place(&verdicts[0].places, 200);
    assert_eq!(l.len(), 200);
    assert!(l.iter().all(|v| v.is_finite()));
}

#[test]
fn options_are_no_longer_cut_at_48_tokens() {
    let laya = load(Layout::Laya);
    let long = words(60);
    let question = q(&format!(
        r#"{{"t": "choice", "ins": "Which?", "crit": {{"a": "{long}", "b": "short"}}}}"#
    ));
    let mut plan = laya.plan(&text("hi"), vec![question]);
    let rows = plan.rows();
    // Option `a`'s tokens run from its marker to option `b`'s marker.
    let m = &rows[0].markers;
    assert!(m[1] - m[0] > 49, "option a kept {} tokens", m[1] - m[0]);
    assert!(!plan.truncation(0).any());
}

#[test]
fn long_instructions_are_kept_whole() {
    for layout in [Layout::Laya, Layout::Prefix] {
        let laya = load(layout);
        let ins = format!("{} Is the last sentence about refunds?", words(40));
        let question = q(&format!(r#"{{"t": "noul", "ins": "{ins}"}}"#));
        let mut plan = laya.plan(&text(&words(300)), vec![question]);
        assert!(!plan.truncation(0).any());
        let rows = plan.rows();
        let head = encode_text(&laya.tok, &format!("noul question: {ins}")).unwrap();
        for r in &rows {
            // The whole head is in the row, and the state keeps `min_state` tokens beside it.
            assert!(r.ids.windows(head.len()).any(|w| w == head), "{layout:?}");
            assert!(r.ids.len() > laya.cfg.max_len);
            assert!(r.ids.len() >= head.len() + laya.budget.min_state);
        }
        assert!(plan.state_chunks() > 1);
    }
}

#[test]
fn questions_past_the_position_limit_report_what_was_cut() {
    let laya = load(Layout::Laya);
    let ins = format!("{} Is it about refunds?", words(700));
    let question = q(&format!(r#"{{"t": "noul", "ins": "{ins}"}}"#));
    let mut plan = laya.plan(&text("hi"), vec![question]);
    let t = plan.truncation(0);
    assert!(t.instructions > 0 && t.options == 0, "{t:?}");
    assert!(t.question_tokens > t.limit);
    let rows = plan.rows();
    assert!(rows[0].ids.len() <= laya.budget.max_window);
    // The end of the instructions (the actual question) survives the cut.
    let tail = encode_text(&laya.tok, " refunds?").unwrap();
    assert!(rows[0].ids.windows(tail.len()).any(|w| w == tail));
}

#[test]
fn a_long_state_runs_in_chunks_that_cover_it() {
    for layout in [Layout::Laya, Layout::Prefix] {
        let laya = load(layout);
        let mut plan = laya.plan(&text(&words(600)), questions());
        let n = plan.state_chunks();
        assert!(n > 3, "{n}");
        let rows = plan.rows();
        assert_eq!(rows.len(), n * 3);
        for r in &rows {
            assert!(
                r.ids.len() <= laya.cfg.max_len,
                "{layout:?} {}",
                r.ids.len()
            );
        }
        assert_eq!(plan.state_tokens(), encode_text(&laya.tok, &words(600)).unwrap().len());
        // Every question is asked of every chunk.
        let groups = plan.outputs_of(rows.len()).unwrap();
        for (qi, g) in groups.iter().enumerate() {
            let want: Vec<usize> = (0..n).map(|c| c * 3 + qi).collect();
            assert_eq!(*g, want);
        }
    }
}

#[test]
fn plans_need_options() {
    let laya = load(Layout::Laya);
    let none = Question {
        t: QType::Choice,
        ins: "Which?".to_string(),
        crit: candle_rlcd::sequence::Criteria::Choice(vec![]),
        labels: None,
    };
    let r = Plan::new(&laya.tok, &laya.sp, Layout::Laya, &laya.budget, &text("x"), vec![none]);
    assert!(matches!(r, Err(PlanError::NoOptions)));
    let mut asked = questions();
    asked.push(Question {
        t: QType::Choice,
        ins: "Which?".to_string(),
        crit: candle_rlcd::sequence::Criteria::Choice(vec![]),
        labels: None,
    });
    let r = Plan::new(&laya.tok, &laya.sp, Layout::Laya, &laya.budget, &text("x"), asked);
    assert!(matches!(r, Err(PlanError::NoOptions)));
    assert_eq!(PlanError::NoOptions.message(), "question has no options");
}

#[test]
fn later_rounds_stay_within_the_window() {
    let laya = load(Layout::Laya);
    let budget = Budget {
        max_len: 512,
        max_window: 512,
        option_budget: 192,
        min_state: 128,
        overlap: 64,
    };
    for layout in [Layout::Laya, Layout::Prefix] {
        let question = q(
            r#"{"t": "choice", "ins": "Which?", "crit": {"a": null, "b": null, "c": null, "d": null}}"#,
        );
        let asked = QuestionParts {
            head: (0..20).collect(),
            opts: [350, 10, 350, 10].iter().map(|&l| vec![7; l]).collect(),
        };
        let state = [9; 10];
        let mut plan = Plan::of_tokens(&laya.sp, layout, &budget, &state, vec![(question, asked)]);
        let rows = plan.rows();
        // Two long options never share a row of round one, so nothing is cut.
        assert_eq!(plan.rounds(0), vec![2]);
        assert!(!plan.truncation(0).any());
        assert!(rows.iter().all(|r| r.ids.len() <= 512));
        // Both long options lead, and meet in round two, where they do not fit.
        let outs: Vec<RowOutput> = rows
            .iter()
            .map(|_| RowOutput {
                logits: bits(&[2.0, 1.0]),
                act_probs: bits(&[1.0]),
            })
            .collect();
        plan.feed(&outs);
        assert_eq!(plan.rounds(0), vec![2, 1]);
        assert_eq!(plan.next_tokens(), 512);
        let rows = plan.rows();
        assert_eq!(rows.len(), 1);
        assert_eq!(rows[0].ids.len(), 512);
        // What was cut is reported: four tokens of the instructions, the rest of the options.
        let t = plan.truncation(0);
        let room = match layout {
            Layout::Laya => 501,
            Layout::Prefix => 500,
        };
        assert_eq!((t.instructions, t.options), (4, 700 - (room - 19)));
        assert_eq!((t.question_tokens, t.limit), (723, room));
    }
}
