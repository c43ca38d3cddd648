use access_digest::{digest, summarize, Aggregator, Flow, Group, Line, Output, Payload, Record};

fn record(time: &str, addr: &str, request: &str) -> Record {
    Record {
        time_iso8601: time.to_string(),
        remote_addr: addr.to_string(),
        remote_user: "-".to_string(),
        request: request.to_string(),
        http_referer: "https://example.org/".to_string(),
        http_user_agent: "curl/8.0".to_string(),
        http_accept: "*/*".to_string(),
        http_x_forwarded_for: "-".to_string(),
        http_cookie: "sid=1".to_string(),
        status: "200".to_string(),
        bytes_sent: "512".to_string(),
        body_bytes_sent: "300".to_string(),
        connection: "17".to_string(),
        connection_requests: "1".to_string(),
    }
}

fn payload(request: &str) -> Payload {
    Payload::from_record(record("", "", request))
}

fn parsed(time: &str, addr: &str, request: &str) -> Line {
    Line::Parsed(record(time, addr, request))
}

fn example_log() -> Vec<Line> {
    vec![
        parsed("T1", "1.2.3.4", "GET / HTTP/1.1"),
        parsed("T9", "5.6.7.8", "GET / HTTP/1.1"),
        parsed("T2", "1.2.3.4", "GET / HTTP/1.1"),
        parsed("T8", "9.9.9.9", "GET /other HTTP/1.1"),
        parsed("T3", "1.2.3.4", "GET / HTTP/1.1"),
    ]
}

fn run(lines: Vec<Line>, ip: &str, max: usize) -> Vec<Output> {
    digest(lines, ip.to_string(), max).expect("no line is malformed")
}

#[test]
fn from_record_keeps_the_six_identity_fields() {
    let r = Record {
        time_iso8601: "2024-05-01T10:00:00+00:00".to_string(),
        remote_addr: "10.0.0.1".to_string(),
        remote_user: "alice".to_string(),
        request: "POST /login HTTP/1.1".to_string(),
        http_referer: "https://ref.example/".to_string(),
        http_user_agent: "Mozilla/5.0".to_string(),
        http_accept: "text/html".to_string(),
        http_x_forwarded_for: "192.168.0.7".to_string(),
        http_cookie: "a=b; c=d".to_string(),
        status: "302".to_string(),
        bytes_sent: "123".to_string(),
        body_bytes_sent: "45".to_string(),
        connection: "6".to_string(),
        connection_requests: "7".to_string(),
    };
    let p = Payload::from_record(r);
    assert_eq!(p.request, "POST /login HTTP/1.1");
    assert_eq!(p.http_referer, "https://ref.example/");
    assert_eq!(p.http_user_agent, "Mozilla/5.0");
    assert_eq!(p.http_accept, "text/html");
    assert_eq!(p.http_x_forwarded_for, "192.168.0.7");
    assert_eq!(p.http_cookie, "a=b; c=d");
}

#[test]
fn payload_equality_is_exact_on_every_field() {
    let base = payload("GET / HTTP/1.1");
    assert_eq!(base, base.clone());
    let mut p = base.clone();
    p.request = "GET / HTTP/1.0".to_string();
    assert_ne!(base, p);
    let mut p = base.clone();
    p.http_referer = "https://example.org".to_string();
    assert_ne!(base, p);
    let mut p = base.clone();
    p.http_user_agent = "Curl/8.0".to_string();
    assert_ne!(base, p);
    let mut p = base.clone();
    p.http_accept = "*/* ".to_string();
    assert_ne!(base, p);
    let mut p = base.clone();
    p.http_x_forwarded_for = "".to_string();
    assert_ne!(base, p);
    let mut p = base.clone();
    p.http_cookie = "sid=2".to_string();
    assert_ne!(base, p);
}

#[test]
fn equal_payloads_hash_alike() {
    let mut seen = std::collections::HashSet::new();
    assert!(seen.insert(payload("GET / HTTP/1.1")));
    assert!(!seen.insert(payload("GET / HTTP/1.1")));
    assert!(seen.insert(payload("GET /x HTTP/1.1")));
    assert_eq!(seen.len(), 2);
}

#[test]
fn record_clone_keeps_every_field() {
    let r = record("T1", "1.2.3.4", "GET / HTTP/1.1");
    let c = r.clone();
    assert_eq!(c.time_iso8601, "T1");
    assert_eq!(c.remote_addr, "1.2.3.4");
    assert_eq!(c.remote_user, "-");
    assert_eq!(c.request, "GET / HTTP/1.1");
    assert_eq!(c.status, "200");
    assert_eq!(c.bytes_sent, "512");
    assert_eq!(c.body_bytes_sent, "300");
    assert_eq!(c.connection, "17");
    assert_eq!(c.connection_requests, "1");
}

#[test]
fn end_to_end_example() {
    let out = run(example_log(), "1.2.3.4", 2);
    assert_eq!(out.len(), 1);
    assert_eq!(out[0].payload, payload("GET / HTTP/1.1"));
    assert_eq!(out[0].count, 3);
    assert_eq!(out[0].earliest, "T1");
    assert_eq!(out[0].latest, "T3");

    let out = run(example_log(), "1.2.3.4", 4);
    assert!(out.is_empty());
}

#[test]
fn records_from_other_addresses_do_not_count() {
    let with = run(example_log(), "1.2.3.4", 0);
    let without = run(
        vec![
            parsed("T1", "1.2.3.4", "GET / HTTP/1.1"),
            parsed("T2", "1.2.3.4", "GET / HTTP/1.1"),
            parsed("T3", "1.2.3.4", "GET / HTTP/1.1"),
        ],
        "1.2.3.4",
        0,
    );
    assert_eq!(with.len(), 1);
    assert_eq!(without.len(), 1);
    assert_eq!(with[0].payload, without[0].payload);
    assert_eq!(with[0].count, without[0].count);
    assert_eq!(with[0].earliest, without[0].earliest);
    assert_eq!(with[0].latest, without[0].latest);
}

#[test]
fn a_record_from_the_target_address_makes_its_group_one_larger() {
    let mut lines = example_log();
    lines.insert(2, parsed("T0", "1.2.3.4", "GET / HTTP/1.1"));
    let out = run(lines, "1.2.3.4", 0);
    assert_eq!(out.len(), 1);
    assert_eq!(out[0].count, 4);
}

#[test]
fn address_is_compared_exactly() {
    let lines = || {
        vec![
            parsed("T1", "ABCD::1", "GET / HTTP/1.1"),
            parsed("T2", "abcd::1", "GET / HTTP/1.1"),
            parsed("T3", " abcd::1", "GET / HTTP/1.1"),
            parsed("T4", "abcd::1 ", "GET / HTTP/1.1"),
            parsed("T5", "abcd::01", "GET / HTTP/1.1"),
        ]
    };
    let out = run(lines(), "abcd::1", 1);
    assert_eq!(out.len(), 1);
    assert_eq!(out[0].count, 1);
    assert_eq!(out[0].earliest, "T2");
    assert_eq!(out[0].latest, "T2");
    assert!(run(lines(), "abcd::1", 2).is_empty());
    assert!(run(lines(), "Abcd::1", 1).is_empty());
}

#[test]
fn records_are_grouped_by_all_six_fields() {
    let base = record("T1", "1.2.3.4", "GET / HTTP/1.1");
    let mut lines = vec![Line::Parsed(base.clone())];
    let mut r = base.clone();
    r.time_iso8601 = "T2".to_string();
    r.request = "GET /x HTTP/1.1".to_string();
    lines.push(Line::Parsed(r));
    let mut r = base.clone();
    r.time_iso8601 = "T3".to_string();
    r.http_referer = "-".to_string();
    lines.push(Line::Parsed(r));
    let mut r = base.clone();
    r.time_iso8601 = "T4".to_string();
    r.http_user_agent = "CURL/8.0".to_string();
    lines.push(Line::Parsed(r));
    let mut r = base.clone();
    r.time_iso8601 = "T5".to_string();
    r.http_accept = "text/html".to_string();
    lines.push(Line::Parsed(r));
    let mut r = base.clone();
    r.time_iso8601 = "T6".to_string();
    r.http_x_forwarded_for = "10.0.0.1".to_string();
    lines.push(Line::Parsed(r));
    let mut r = base.clone();
    r.time_iso8601 = "T7".to_string();
    r.http_cookie = "sid=1 ".to_string();
    lines.push(Line::Parsed(r));
    // Same signature as the first record, though every other field differs.
    let mut r = base.clone();
    r.time_iso8601 = "T8".to_string();
    r.remote_user = "bob".to_string();
    r.status = "500".to_string();
    r.bytes_sent = "0".to_string();
    r.body_bytes_sent = "0".to_string();
    r.connection = "99".to_string();
    r.connection_requests = "42".to_string();
    lines.push(Line::Parsed(r));

    let out = run(lines, "1.2.3.4", 0);
    assert_eq!(out.len(), 7);
    assert_eq!(out[0].payload, Payload::from_record(base));
    assert_eq!(out[0].count, 2);
    assert_eq!(out[0].earliest, "T1");
    assert_eq!(out[0].latest, "T8");
    for i in 1..7 {
        assert_eq!(out[i].count, 1);
        assert_eq!(out[i].earliest, format!("T{}", i + 1));
        assert_eq!(out[i].latest, format!("T{}", i + 1));
        for j in 0..i {
            assert_ne!(out[i].payload, out[j].payload);
        }
    }
}

#[test]
fn threshold_is_inclusive() {
    let lines = || {
        vec![
            parsed("A1", "1.2.3.4", "GET /a HTTP/1.1"),
            parsed("B1", "1.2.3.4", "GET /b HTTP/1.1"),
            parsed("A2", "1.2.3.4", "GET /a HTTP/1.1"),
            parsed("B2", "1.2.3.4", "GET /b HTTP/1.1"),
            parsed("B3", "1.2.3.4", "GET /b HTTP/1.1"),
        ]
    };
    let out = run(lines(), "1.2.3.4", 3);
    assert_eq!(out.len(), 1);
    assert_eq!(out[0].payload, payload("GET /b HTTP/1.1"));
    assert_eq!(out[0].count, 3);
    assert_eq!(out[0].earliest, "B1");
    assert_eq!(out[0].latest, "B3");

    let out = run(lines(), "1.2.3.4", 2);
    assert_eq!(out.len(), 2);
    assert_eq!(out[0].payload, payload("GET /a HTTP/1.1"));
    assert_eq!(out[0].count, 2);
    assert_eq!(out[1].payload, payload("GET /b HTTP/1.1"));
    assert_eq!(out[1].count, 3);
}

#[test]
fn threshold_zero_and_one_report_every_group() {
    let lines = || {
        vec![
            parsed("A1", "1.2.3.4", "GET /a HTTP/1.1"),
            parsed("X1", "4.3.2.1", "GET /x HTTP/1.1"),
            parsed("B1", "1.2.3.4", "GET /b HTTP/1.1"),
            parsed("A2", "1.2.3.4", "GET /a HTTP/1.1"),
        ]
    };
    for max in [0usize, 1] {
        let out = run(lines(), "1.2.3.4", max);
        assert_eq!(out.len(), 2);
        assert_eq!(out[0].payload, payload("GET /a HTTP/1.1"));
        assert_eq!(out[0].count, 2);
        assert_eq!(out[0].earliest, "A1");
        assert_eq!(out[0].latest, "A2");
        assert_eq!(out[1].payload, payload("GET /b HTTP/1.1"));
        assert_eq!(out[1].count, 1);
        assert_eq!(out[1].earliest, "B1");
        assert_eq!(out[1].latest, "B1");
    }
}

#[test]
fn earliest_and_latest_follow_input_order_not_time() {
    let out = run(
        vec![
            parsed("2024-03-01T00:00:00Z", "1.2.3.4", "GET / HTTP/1.1"),
            parsed("2024-01-01T00:00:00Z", "1.2.3.4", "GET / HTTP/1.1"),
            parsed("2024-12-31T23:59:59Z", "1.2.3.4", "GET / HTTP/1.1"),
            parsed("2024-02-01T00:00:00Z", "1.2.3.4", "GET / HTTP/1.1"),
        ],
        "1.2.3.4",
        1,
    );
    assert_eq!(out.len(), 1);
    assert_eq!(out[0].count, 4);
    assert_eq!(out[0].earliest, "2024-03-01T00:00:00Z");
    assert_eq!(out[0].latest, "2024-02-01T00:00:00Z");
}

#[test]
fn empty_log_reports_nothing() {
    assert!(run(Vec::new(), "1.2.3.4", 0).is_empty());
    assert!(run(Vec::new(), "1.2.3.4", 5).is_empty());
}

#[test]
fn log_without_the_target_address_reports_nothing() {
    assert!(run(example_log(), "8.8.8.8", 0).is_empty());
}

#[test]
fn one_malformed_line_fails_the_run() {
    for at in 0..=5 {
        let mut lines = example_log();
        lines.insert(at, Line::Malformed);
        assert!(digest(lines, "1.2.3.4".to_string(), 0).is_none());
    }
    assert!(digest(vec![Line::Malformed], "1.2.3.4".to_string(), 0).is_none());
}

#[test]
fn malformed_line_fails_even_when_no_group_would_be_reported() {
    let lines = vec![parsed("T1", "5.6.7.8", "GET / HTTP/1.1"), Line::Malformed];
    assert!(digest(lines, "1.2.3.4".to_string(), 10).is_none());
}

#[test]
fn feed_answers_continue_until_a_line_is_malformed() {
    let mut a = Aggregator::new("1.2.3.4".to_string());
    assert_eq!(a.feed(parsed("T1", "1.2.3.4", "GET / HTTP/1.1")), Flow::Continue);
    assert_eq!(a.feed(parsed("T2", "5.6.7.8", "GET / HTTP/1.1")), Flow::Continue);
    assert_eq!(a.feed(Line::Malformed), Flow::Abort);
    assert_eq!(a.feed(parsed("T3", "1.2.3.4", "GET / HTTP/1.1")), Flow::Abort);
    assert_eq!(a.feed(Line::Malformed), Flow::Abort);
    assert!(a.finish(0).is_none());
}

#[test]
fn feed_and_finish_agree_with_digest() {
    let mut a = Aggregator::new("1.2.3.4".to_string());
    for line in example_log() {
        assert_eq!(a.feed(line), Flow::Continue);
    }
    let step = a.finish(2).expect("no line is malformed");
    let whole = run(example_log(), "1.2.3.4", 2);
    assert_eq!(step.len(), whole.len());
    for (s, w) in step.iter().zip(whole.iter()) {
        assert_eq!(s.payload, w.payload);
        assert_eq!(s.count, w.count);
        assert_eq!(s.earliest, w.earliest);
        assert_eq!(s.latest, w.latest);
    }
}

#[test]
fn fresh_aggregator_reports_nothing() {
    let a = Aggregator::new("1.2.3.4".to_string());
    assert!(a.finish(0).expect("no line was fed").is_empty());
}

#[test]
fn two_runs_report_the_same() {
    let one = run(example_log(), "1.2.3.4", 1);
    let two = run(example_log(), "1.2.3.4", 1);
    assert_eq!(one.len(), two.len());
    for o in &one {
        assert!(two.iter().any(|t| t.payload == o.payload
            && t.count == o.count
            && t.earliest == o.earliest
            && t.latest == o.latest));
    }
}

#[test]
fn groups_are_reported_in_order_of_first_appearance() {
    let out = run(
        vec![
            parsed("1", "1.2.3.4", "GET /c HTTP/1.1"),
            parsed("2", "1.2.3.4", "GET /a HTTP/1.1"),
            parsed("3", "1.2.3.4", "GET /b HTTP/1.1"),
            parsed("4", "1.2.3.4", "GET /a HTTP/1.1"),
            parsed("5", "1.2.3.4", "GET /c HTTP/1.1"),
        ],
        "1.2.3.4",
        2,
    );
    assert_eq!(out.len(), 2);
    assert_eq!(out[0].payload, payload("GET /c HTTP/1.1"));
    assert_eq!(out[0].earliest, "1");
    assert_eq!(out[0].latest, "5");
    assert_eq!(out[1].payload, payload("GET /a HTTP/1.1"));
    assert_eq!(out[1].earliest, "2");
    assert_eq!(out[1].latest, "4");
}

#[test]
fn group_grows_at_the_end() {
    let mut g = Group::new(payload("GET / HTTP/1.1"), "T1".to_string());
    assert_eq!(g.len(), 1);
    assert_eq!(*g.signature(), payload("GET / HTTP/1.1"));
    let s = g.summary();
    assert_eq!(s.payload, payload("GET / HTTP/1.1"));
    assert_eq!(s.count, 1);
    assert_eq!(s.earliest, "T1");
    assert_eq!(s.latest, "T1");
    g.push("T0".to_string());
    g.push("T7".to_string());
    assert_eq!(g.len(), 3);
    let s = g.summary();
    assert_eq!(s.count, 3);
    assert_eq!(s.earliest, "T1");
    assert_eq!(s.latest, "T7");
}

#[test]
fn summarize_drops_groups_below_the_threshold() {
    let mut a = Group::new(payload("GET /a HTTP/1.1"), "A1".to_string());
    a.push("A2".to_string());
    let b = Group::new(payload("GET /b HTTP/1.1"), "B1".to_string());
    let mut c = Group::new(payload("GET /c HTTP/1.1"), "C1".to_string());
    c.push("C2".to_string());
    c.push("C3".to_string());
    let groups = vec![a, b, c];

    let out = summarize(&groups, 2);
    assert_eq!(out.len(), 2);
    assert_eq!(out[0].payload, payload("GET /a HTTP/1.1"));
    assert_eq!(out[0].count, 2);
    assert_eq!(out[0].earliest, "A1");
    assert_eq!(out[0].latest, "A2");
    assert_eq!(out[1].payload, payload("GET /c HTTP/1.1"));
    assert_eq!(out[1].count, 3);
    assert_eq!(out[1].earliest, "C1");
    assert_eq!(out[1].latest, "C3");

    assert_eq!(summarize(&groups, 0).len(), 3);
    assert_eq!(summarize(&groups, 3).len(), 1);
    assert!(summarize(&groups, 4).is_empty());
    assert!(summarize(&Vec::new(), 0).is_empty());
}
