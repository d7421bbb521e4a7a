use grad::clock::Timespec;
use grad::metrics::aggregate::{next_timestamp, NoneAggregator, SumAggregator};
use grad::metrics::{
    Aggregate, AggregateFunction, Metrics, Query, Range, Serie, Value,
};
use grad::statsd::{MetricType, StatsdMessage, Tag};

fn msg(key: &str, tags: &[(&str, &str)], value: isize, metric_type: MetricType) -> StatsdMessage {
    StatsdMessage {
        key: key.to_string(),
        tags: tags
            .iter()
            .map(|(k, v)| Tag { key: k.to_string(), value: v.to_string() })
            .collect(),
        value,
        metric_type,
    }
}

fn at(sec: i64) -> Timespec {
    Timespec { sec, nsec: 0 }
}

fn raw_query(key: &str, since: u32) -> Query {
    Query {
        range: Range { since },
        aggregate: Aggregate { points: None, function: AggregateFunction::Raw },
        key: key.to_string(),
    }
}

fn sum_query(key: &str, since: u32, points: Option<u32>) -> Query {
    Query {
        range: Range { since },
        aggregate: Aggregate { points, function: AggregateFunction::Sum },
        key: key.to_string(),
    }
}

#[test]
fn raw_query_gives_back_the_values_after_since() {
    let mut m = Metrics::new();
    m.insert_at(msg("req", &[], 1, MetricType::Counter), at(5));
    m.insert_at(msg("req", &[], 2, MetricType::Counter), at(10));
    m.insert_at(msg("req", &[], 3, MetricType::Counter), at(20));
    m.insert_at(msg("other", &[], 9, MetricType::Gauge), at(15));
    let r = m.query_at(&raw_query("req", 5), at(100)).unwrap();
    assert_eq!(r.timestamps, vec![10, 20]);
    assert_eq!(r.values, vec![2, 3]);
    let all = m.query_at(&raw_query("req", 0), at(100)).unwrap();
    assert_eq!(all.timestamps, vec![5, 10, 20]);
    assert_eq!(all.values, vec![1, 2, 3]);
}

#[test]
fn unknown_key_has_no_answer() {
    let mut m = Metrics::new();
    m.insert_at(msg("req", &[], 1, MetricType::Counter), at(5));
    assert!(m.query_at(&raw_query("nope", 0), at(100)).is_none());
    assert!(m.query(&raw_query("nope", 0)).is_none());
    assert!(m.query(&sum_query("nope", 0, Some(10))).is_none());
}

#[test]
fn insert_then_query_appends_the_new_value() {
    let mut m = Metrics::new();
    m.insert_at(msg("k", &[], 4, MetricType::Gauge), at(30));
    let before = m.query_at(&raw_query("k", 10), at(0)).unwrap();
    m.insert_at(msg("k", &[], 8, MetricType::Gauge), at(40));
    let after = m.query_at(&raw_query("k", 10), at(0)).unwrap();
    let mut expected = before.timestamps.clone();
    expected.push(40);
    assert_eq!(after.timestamps, expected);
    assert_eq!(after.values, vec![4, 8]);
}

#[test]
fn sum_query_sums_per_bucket() {
    let mut m = Metrics::new();
    m.insert_at(msg("hits", &[], 1, MetricType::Counter), at(5));
    m.insert_at(msg("hits", &[], 2, MetricType::Counter), at(7));
    m.insert_at(msg("hits", &[], 3, MetricType::Counter), at(15));
    m.insert_at(msg("hits", &[], 4, MetricType::Counter), at(31));
    // From 0 to 100 seconds in 10 points: buckets of 10 seconds.
    let r = m.query_at(&sum_query("hits", 0, Some(10)), at(100)).unwrap();
    // Buckets start at 0 (1 + 2), 20 (3) and 40 (4); the one at 0 is not after `since`.
    assert_eq!(r.timestamps, vec![20, 40]);
    assert_eq!(r.values, vec![3, 4]);
}

#[test]
fn sum_query_with_default_points() {
    let mut m = Metrics::new();
    m.insert_at(msg("hits", &[], 1, MetricType::Counter), at(5));
    m.insert_at(msg("hits", &[], 2, MetricType::Counter), at(1500));
    // 2000 seconds in 1000 points: buckets of 2 seconds.
    let r = m.query_at(&sum_query("hits", 0, None), at(2000)).unwrap();
    assert_eq!(r.timestamps, vec![6, 1500]);
    assert_eq!(r.values, vec![1, 2]);
}

#[test]
fn query_reading_the_clock_answers() {
    let mut m = Metrics::new();
    m.insert(msg("k", &[], 5, MetricType::Counter));
    m.insert(msg("k", &[], 6, MetricType::Counter));
    let raw = m.query(&raw_query("k", 0)).unwrap();
    assert_eq!(raw.values, vec![5, 6]);
    let sum = m.query(&sum_query("k", 0, Some(100))).unwrap();
    assert_eq!(sum.timestamps.len(), sum.values.len());
    assert_eq!(sum.values.iter().sum::<isize>(), 11);
}

#[test]
fn state_counts_values_per_tag_list() {
    let mut m = Metrics::new();
    m.insert_at(msg("a", &[("h", "1")], 1, MetricType::Counter), at(1));
    m.insert_at(msg("a", &[("h", "2")], 1, MetricType::Gauge), at(2));
    m.insert_at(msg("a", &[("h", "1")], 1, MetricType::Counter), at(3));
    m.insert_at(msg("b", &[], 1, MetricType::Timing), at(4));
    let s = m.state();
    assert_eq!(s.counter, 4);
    assert_eq!(s.series.len(), 2);
    let a = s.series.iter().find(|(k, _)| k == "a").unwrap();
    // The series keeps the type of its first message.
    assert_eq!((a.1).0, MetricType::Counter);
    let groups = &(a.1).1;
    assert_eq!(groups.len(), 2);
    let h1 = groups.iter().find(|(t, _)| t[0].value == "1").unwrap();
    let h2 = groups.iter().find(|(t, _)| t[0].value == "2").unwrap();
    assert_eq!(h1.1, 2);
    assert_eq!(h2.1, 1);
    let b = s.series.iter().find(|(k, _)| k == "b").unwrap();
    assert_eq!((b.1).0, MetricType::Timing);
    assert_eq!((b.1).1[0].1, 1);
    let total: usize = s.series.iter().map(|(_, (_, g))| g.iter().map(|x| x.1).sum::<usize>()).sum();
    assert_eq!(total, s.counter);
}

#[test]
fn new_store_is_empty() {
    let m = Metrics::new();
    let s = m.state();
    assert_eq!(s.counter, 0);
    assert!(s.series.is_empty());
}

#[test]
fn serie_insert_keeps_its_type() {
    let mut s = Serie::new(MetricType::Gauge);
    s.insert_at(msg("x", &[("a", "b")], 3, MetricType::Counter), at(9));
    s.insert(msg("x", &[], 4, MetricType::Counter));
    assert_eq!(s.metric_type, MetricType::Gauge);
    assert_eq!(s.values.len(), 2);
    assert_eq!(s.values[0].timestamp, at(9));
    assert_eq!(s.values[0].tags[0].key, "a");
    assert_eq!(s.values[1].value, 4);
    assert!(s.values[1].timestamp.nsec >= 0 && s.values[1].timestamp.nsec < 1_000_000_000);
}

#[test]
fn defaults() {
    let r = Range::default();
    assert_eq!(r.since, 0);
    let a = Aggregate::default();
    assert!(a.points.is_none());
    assert_eq!(a.function, AggregateFunction::Raw);
}

fn value(sec: i64, v: isize) -> Value {
    Value { timestamp: at(sec), tags: Vec::new(), value: v }
}

#[test]
fn none_aggregator_hands_out_the_values() {
    let mut agg = NoneAggregator::from(vec![value(1, 10), value(2, 20)]);
    assert_eq!(agg.next().unwrap().value, 10);
    assert_eq!(agg.next().unwrap().value, 20);
    assert!(agg.next().is_none());
    assert!(agg.next().is_none());
}

#[test]
fn sum_aggregator_buckets_and_conserves() {
    let values = vec![value(1, 1), value(2, 2), value(12, 3), value(13, 4), value(45, 5)];
    let mut agg = SumAggregator::from(&values, 10_000_000_000, at(0));
    let mut out = Vec::new();
    while let Some(v) = agg.next() {
        assert!(v.tags.is_empty());
        out.push((v.timestamp.sec, v.value));
    }
    assert_eq!(out, vec![(0, 3), (20, 7), (50, 5)]);
    assert!(agg.next().is_none());
    let total: isize = out.iter().map(|p| p.1).sum();
    assert_eq!(total, 15);
    for w in out.windows(2) {
        assert!(w[0].0 < w[1].0);
        assert_eq!(w[0].0 % 10, 0);
    }
}

#[test]
fn next_timestamp_steps_to_the_first_grid_point_not_before() {
    let span = 2_500_000_000; // 2.5 seconds
    assert_eq!(next_timestamp(at(0), span, at(6)), Timespec { sec: 7, nsec: 500_000_000 });
    assert_eq!(next_timestamp(at(0), span, at(5)), at(5));
    assert_eq!(next_timestamp(at(10), span, at(5)), at(10));
    assert_eq!(
        next_timestamp(at(0), span, Timespec { sec: 5, nsec: 1 }),
        Timespec { sec: 7, nsec: 500_000_000 }
    );
}

#[test]
fn series_report_lists_each_tag_group() {
    let mut m = Metrics::new();
    for i in 0..12 {
        m.insert_at(msg("a", &[("h", "1"), ("z", "q")], 1, MetricType::Counter), at(i));
    }
    let s = m.state();
    assert_eq!(
        grad::metrics::report::series_report(&s),
        "1 series, 12 values\n\na[12]: Counter, h=1, z=q"
    );
    let empty = Metrics::new().state();
    assert_eq!(grad::metrics::report::series_report(&empty), "0 series, 0 values\n");
}

#[test]
fn has_series_and_message_count() {
    let mut m = Metrics::new();
    assert!(!m.has_series(&"a".to_string()));
    m.insert_at(msg("a", &[], 1, MetricType::Gauge), at(1));
    assert!(m.has_series(&"a".to_string()));
    assert_eq!(m.message_count(), 1);
}
