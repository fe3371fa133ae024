use candle_rlcd::bench::{
    ends_head, host_of, load_requests, question_count, rank, read_length, read_status, request_head,
    warmup_request, HeadStep, LengthHeader, ReplyHead, RequestError,
};
use candle_rlcd::json::compact;

#[test]
fn records_become_requests() {
    let line = r#"{"state": "s", "questions": {"q": {"t": "noul", "ins": "x", "labels": 1}, "r": {"type": "score", "criteria": ["a"]}}, "targets": {}}"#;
    let reqs = load_requests(&format!("{line}\n\n{line}\n")).unwrap();
    assert_eq!(reqs.len(), 2);
    let req = &reqs[1];
    assert_eq!(
        compact(req),
        r#"{"state":"s","model":"jev-latest","questions":{"q":{"type":"noul","instructions":"x"},"r":{"type":"score","criteria":["a"]}}}"#
    );
    assert_eq!(question_count(req), 2);
    assert_eq!(load_requests(" \n"), Err(RequestError::NoRequests));
    assert_eq!(load_requests("{}"), Err(RequestError::NoQuestions));
    assert!(matches!(load_requests("{"), Err(RequestError::BadJson(_))));
}

#[test]
fn requests_are_written_and_replies_read() {
    assert_eq!(host_of("http://localhost:8080//"), Some("localhost:8080".to_string()));
    assert_eq!(host_of("https://localhost"), None);
    assert_eq!(
        request_head("h:1", 12),
        "POST /v1/systemone HTTP/1.1\r\nHost: h:1\r\nContent-Type: application/json\r\nContent-Length: 12\r\n\r\n"
    );
    assert_eq!(read_status("HTTP/1.1 200 OK\r\n"), Some(200));
    assert_eq!(read_status("HTTP/1.1\r\n"), None);
    assert_eq!(read_status("HTTP/1.1 99999\r\n"), None);
    assert_eq!(read_length("Content-LENGTH: 37\r\n"), LengthHeader::Length(37));
    assert_eq!(read_length("content-length: x\r\n"), LengthHeader::Invalid);
    assert_eq!(read_length("date: 37\r\n"), LengthHeader::Other);
    assert!(ends_head("\r\n"));
    assert!(ends_head(""));
    assert!(!ends_head("a: b\r\n"));
}

#[test]
fn percentiles_have_places() {
    for n in 1..400usize {
        for percent in [0, 50, 90, 95, 99, 100] {
            let want = ((n - 1) as f64 * percent as f64 / 100.0).round() as usize;
            assert_eq!(rank(n, percent), want, "{n} {percent}");
        }
    }
    assert_eq!(warmup_request(2, 3, 10), 3);
}

#[test]
fn the_head_of_a_reply_is_read_line_by_line() {
    let mut h = ReplyHead::new();
    assert_eq!(h.take_line("HTTP/1.1 422 Unprocessable\r\n"), HeadStep::More);
    assert_eq!(h.take_line("content-length: 12\r\n"), HeadStep::More);
    assert_eq!(h.take_line("date: today\r\n"), HeadStep::More);
    assert_eq!(h.take_line("\r\n"), HeadStep::Done);
    assert_eq!((h.status, h.length), (Some(422), 12));
    assert_eq!(ReplyHead::new().take_line("hello\r\n"), HeadStep::BadStatus);
    let mut h = ReplyHead::new();
    h.take_line("HTTP/1.1 200 OK\r\n");
    assert_eq!(h.take_line("Content-Length: many\r\n"), HeadStep::BadLength);
}
