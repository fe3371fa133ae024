use candle_rlcd::metrics::{label, Histogram, HttpMetrics};

const MS: u128 = 1_000_000;

#[test]
fn histogram_is_cumulative() {
    let mut h = Histogram::new();
    h.observe(3 * MS);
    h.observe(300 * MS);
    h.observe(1_000_000 * MS);
    let mut s = String::new();
    h.render(&mut s, "x", "m=\"a\"");
    assert!(s.contains("x_bucket{m=\"a\",le=\"0.005\"} 1\n"), "{s}");
    assert!(s.contains("x_bucket{m=\"a\",le=\"0.5\"} 2\n"), "{s}");
    assert!(s.contains("x_bucket{m=\"a\",le=\"+Inf\"} 3\n"), "{s}");
    assert!(s.contains("x_count{m=\"a\"} 3\n"), "{s}");
    assert!(s.contains("x_sum{m=\"a\"} 1000.303\n"), "{s}");
    assert_eq!(h.count(), 3);
}

#[test]
fn bounds_belong_to_their_bucket() {
    let mut h = Histogram::new();
    h.observe(5 * MS);
    h.observe(5 * MS + 1);
    let mut s = String::new();
    h.render(&mut s, "x", "");
    assert!(s.contains("le=\"0.005\"} 1\n"), "{s}");
    assert!(s.contains("le=\"0.01\"} 2\n"), "{s}");
}

#[test]
fn responses_are_counted_by_route_and_status() {
    let mut m = HttpMetrics::new();
    m.record("/v1/systemone", 200, MS);
    m.record("/v1/systemone", 422, MS);
    m.record("/v1/systemone", 200, 2 * MS);
    m.record("/health", 200, MS);
    let mut s = String::new();
    m.render(&mut s);
    assert!(s.contains("route=\"/v1/systemone\",status=\"200\"} 2\n"), "{s}");
    assert!(s.contains("route=\"/v1/systemone\",status=\"422\"} 1\n"), "{s}");
    assert!(s.contains("route=\"/health\",status=\"200\"} 1\n"), "{s}");
    // Routes come in the order they were first seen.
    let first = s.find("route=\"/v1/systemone\",status").unwrap();
    assert!(first < s.find("route=\"/health\",status").unwrap());
}

#[test]
fn labels_are_escaped() {
    assert_eq!(label("a\"b\\c\nd"), "a\\\"b\\\\c\\nd");
}

#[test]
fn a_route_has_as_many_latencies_as_responses() {
    let mut m = HttpMetrics::new();
    for status in [200, 422, 200, 500, 200] {
        m.record("/v1/systemone", status, MS);
    }
    m.record("/health", 200, MS);
    let mut s = String::new();
    m.render(&mut s);
    let line = |start: &str| {
        let found: Vec<&str> = s.lines().filter(|l| l.contains(start)).collect();
        assert_eq!(found.len(), 1, "{start}: {s}");
        found[0].rsplit(' ').next().unwrap().parse::<u64>().unwrap()
    };
    let of = |status: u16| line(&format!("{{route=\"/v1/systemone\",status=\"{status}\"}}"));
    assert_eq!((of(200), of(422), of(500)), (3, 1, 1));
    assert_eq!(line("_count{route=\"/v1/systemone\"}"), of(200) + of(422) + of(500));
}

#[test]
fn a_time_raises_the_lines_it_is_within() {
    let lines = |h: &Histogram| {
        let mut s = String::new();
        h.render(&mut s, "x", "");
        let count = |l: &str| l.rsplit(' ').next().unwrap().parse::<f64>().unwrap();
        s.lines().map(count).collect::<Vec<f64>>()
    };
    let mut h = Histogram::new();
    h.observe(7 * MS);
    let before = lines(&h);
    h.observe(100 * MS);
    let after = lines(&h);
    let rise: Vec<f64> = after.iter().zip(&before).map(|(a, b)| a - b).collect();
    // Within 0.1 s, then the rest of the bounds, then the sum and the count.
    assert_eq!(rise[..15], [0., 0., 0., 0., 1., 1., 1., 1., 1., 1., 1., 1., 1., 1., 1.]);
    assert!((rise[15] - 0.1).abs() < 1e-9);
    assert_eq!(rise[16], 1.0);
}
