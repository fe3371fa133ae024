use candle_rlcd::engine::{
    after_pass, choose_pool, matmul_threads, pool_widths, Arrival, EngineConfig, EngineError,
    Gathering, Outcome, Stats, Step,
};

#[test]
fn pools_double_up_to_every_core() {
    let cfg = EngineConfig {
        threads_per_worker: 3,
        ..EngineConfig::for_cores(16)
    };
    assert_eq!(pool_widths(&cfg, 16), vec![3, 6, 12, 16]);
    let fixed = EngineConfig {
        adaptive: false,
        ..cfg
    };
    assert_eq!(pool_widths(&fixed, 16), vec![3]);
    assert_eq!(pool_widths(&cfg, 2), vec![3]);
    let shared = EngineConfig {
        threads_per_worker: 0,
        ..cfg
    };
    assert!(pool_widths(&shared, 16).is_empty());
    assert_eq!(matmul_threads(&cfg, 16), 16);
    assert_eq!(matmul_threads(&fixed, 16), 3);
    assert_eq!(matmul_threads(&shared, 16), 16);
}

#[test]
fn a_pass_runs_on_its_share_of_the_cores() {
    let widths = vec![1, 2, 4, 8];
    // A lone request gets every core.
    assert_eq!(choose_pool(&widths, 8, 1, 0), 3);
    assert_eq!(choose_pool(&widths, 8, 1, 1), 2);
    assert_eq!(choose_pool(&widths, 8, 2, 1), 1);
    assert_eq!(choose_pool(&widths, 8, 8, 20), 0);
}

#[test]
fn requests_gather_until_the_batch_is_full() {
    let mut g = Gathering::new();
    assert_eq!(g.step(4), Step::Wait);
    g.arrive(Arrival::Abandoned, 4);
    assert_eq!(g.step(4), Step::Wait);
    assert!(g.arrive(Arrival::Request(1), 4));
    assert_eq!(g.step(4), Step::Look);
    assert!(g.arrive(Arrival::Request(3), 4));
    assert_eq!(g.step(4), Step::Run);
    assert_eq!(g.requests, vec![1, 3]);
    assert_eq!(g.rows, 4);
    assert_eq!(g.after(true), Gathering::new());
    let mut g = Gathering::new();
    g.arrive(Arrival::Request(1), 4);
    g.arrive(Arrival::Nothing, 4);
    assert_eq!(g.step(4), Step::Run);
}

#[test]
fn a_request_that_does_not_fit_waits_for_the_next_pass() {
    let mut g = Gathering::new();
    assert!(g.arrive(Arrival::Request(60), 64));
    assert!(!g.arrive(Arrival::Request(200), 64));
    assert_eq!(g.step(64), Step::Run);
    assert_eq!((g.requests.as_slice(), g.rows, g.kept), (&[60][..], 60, Some(200)));
    // The large one then runs alone, unless its caller gave up.
    let next = g.after(true);
    assert_eq!((next.requests.as_slice(), next.rows, next.kept), (&[200][..], 200, None));
    assert_eq!(next.step(64), Step::Run);
    assert_eq!(g.after(false), Gathering::new());
}

#[test]
fn a_failed_batch_is_run_one_by_one() {
    assert_eq!(after_pass(true, 3), Outcome::Deliver);
    assert_eq!(after_pass(false, 3), Outcome::RunAlone);
    assert_eq!(after_pass(false, 1), Outcome::Fail);
}

#[test]
fn what_happens_is_counted() {
    let mut s = Stats::new();
    s.count_batch(2, 7);
    s.count_batch(1, 1);
    s.count_burst();
    s.count_answers(5, 100);
    assert_eq!(
        (s.requests, s.batches, s.rows, s.burst, s.questions, s.input_tokens),
        (3, 2, 8, 1, 5, 100)
    );
}

#[test]
fn failures_have_words() {
    assert_eq!(EngineError::not_queued(true), EngineError::Overloaded);
    assert_eq!(EngineError::not_queued(true).message(), "engine overloaded");
    assert_eq!(EngineError::not_queued(false).message(), "inference workers stopped");
    assert_eq!(EngineError::dropped().message(), "inference worker dropped the request");
}
