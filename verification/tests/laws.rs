use bytes::BytesMut;
use grad::clock::Timespec;
use grad::metrics::{Aggregate, AggregateFunction, Metrics, Query, Range};
use grad::statsd::parser::parse;
use grad::statsd::{MetricType, StatsdCodec, StatsdMessage, Tag};

fn line(key: &str, tags: &[(&str, &str)], value: isize, t: &str) -> String {
    let mut s = key.to_string();
    for (k, v) in tags {
        s.push_str(&format!(",{}={}", k, v));
    }
    s.push_str(&format!(":{}|{}\n", value, t));
    s
}

#[test]
fn written_lines_are_read_back() {
    let cases: Vec<(&str, Vec<(&str, &str)>, isize, &str, MetricType)> = vec![
        ("a.b-c_d", vec![], 0, "c", MetricType::Counter),
        ("", vec![("x", "y")], -5, "g", MetricType::Gauge),
        ("k9", vec![("t_1", "v.1-2"), ("", "")], isize::MAX, "ms", MetricType::Timing),
        ("k", vec![("a", "b")], -isize::MAX, "g", MetricType::Gauge),
    ];
    for (key, tags, value, t, mt) in cases {
        let text = line(key, &tags, value, t);
        let mut bytes = text.clone().into_bytes();
        bytes.extend_from_slice(b"garbage that follows");
        let (n, msg) = parse(&bytes).unwrap();
        assert_eq!(n, text.len());
        assert_eq!(msg.key, key);
        assert_eq!(msg.tags.len(), tags.len());
        for (tag, (k, v)) in msg.tags.iter().zip(tags.iter()) {
            assert_eq!(&tag.key, k);
            assert_eq!(&tag.value, v);
        }
        assert_eq!(msg.value, value);
        assert_eq!(msg.metric_type, mt);
    }
}

#[test]
fn the_smallest_number_is_not_read_back() {
    let text = line("k", &[], isize::MIN, "c");
    assert!(parse(text.as_bytes()).is_err());
}

#[test]
fn decoding_a_stream_of_lines_gives_each_message_in_turn() {
    let mut codec = StatsdCodec::new();
    let text = format!("{}{}{}", line("a", &[], 1, "c"), line("b", &[("h", "x")], 2, "g"), "c:3|m");
    let mut buf = BytesMut::from(text.as_bytes());
    assert_eq!(codec.decode(&mut buf).unwrap().unwrap().key, "a");
    assert_eq!(codec.decode(&mut buf).unwrap().unwrap().key, "b");
    assert!(codec.decode(&mut buf).unwrap().is_none());
    assert_eq!(&buf[..], &b"c:3|m"[..]);
}

fn msg(key: &str, value: isize) -> StatsdMessage {
    StatsdMessage {
        key: key.to_string(),
        tags: vec![Tag { key: "h".to_string(), value: "1".to_string() }],
        value,
        metric_type: MetricType::Counter,
    }
}

fn raw(key: &str, since: u32) -> Query {
    Query {
        range: Range { since },
        aggregate: Aggregate { points: None, function: AggregateFunction::Raw },
        key: key.to_string(),
    }
}

#[test]
fn storing_under_another_key_changes_no_answer() {
    let now = Timespec { sec: 50, nsec: 0 };
    let mut m = Metrics::new();
    m.insert_at(msg("a", 1), Timespec { sec: 10, nsec: 0 });
    let before = m.query_at(&raw("a", 0), now).unwrap();
    m.insert_at(msg("b", 2), Timespec { sec: 20, nsec: 0 });
    let after = m.query_at(&raw("a", 0), now).unwrap();
    assert_eq!(before, after);
}

#[test]
fn a_value_before_since_is_stored_but_not_answered() {
    let now = Timespec { sec: 50, nsec: 0 };
    let mut m = Metrics::new();
    m.insert_at(msg("a", 1), Timespec { sec: 10, nsec: 0 });
    m.insert_at(msg("a", 2), Timespec { sec: 5, nsec: 0 });
    let r = m.query_at(&raw("a", 7), now).unwrap();
    assert_eq!(r.timestamps, vec![10]);
    assert_eq!(r.values, vec![1]);
    assert_eq!(m.message_count(), 2);
}

#[test]
fn the_message_count_is_the_number_of_values_counted() {
    let mut m = Metrics::new();
    for i in 0..7 {
        let key = if i % 2 == 0 { "even" } else { "odd" };
        m.insert_at(msg(key, i), Timespec { sec: i as i64, nsec: 0 });
    }
    let s = m.state();
    let total: usize = s.series.iter().map(|(_, (_, g))| g.iter().map(|x| x.1).sum::<usize>()).sum();
    assert_eq!(s.counter, 7);
    assert_eq!(total, 7);
}
