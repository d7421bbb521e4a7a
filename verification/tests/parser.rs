use grad::statsd::parser::{parse, ParseError};
use grad::statsd::MetricType;

#[test]
fn parses_a_counter_with_tags() {
    let (n, msg) = parse(b"sozu.http.requests,app=web,host=a1:12|c\n").unwrap();
    assert_eq!(n, 40);
    assert_eq!(msg.key, "sozu.http.requests");
    assert_eq!(msg.tags.len(), 2);
    assert_eq!(msg.tags[0].key, "app");
    assert_eq!(msg.tags[0].value, "web");
    assert_eq!(msg.tags[1].key, "host");
    assert_eq!(msg.tags[1].value, "a1");
    assert_eq!(msg.value, 12);
    assert_eq!(msg.metric_type, MetricType::Counter);
}

#[test]
fn parses_a_gauge_without_newline() {
    let (n, msg) = parse(b"cpu:42|g").unwrap();
    assert_eq!(n, 8);
    assert_eq!(msg.key, "cpu");
    assert!(msg.tags.is_empty());
    assert_eq!(msg.value, 42);
    assert_eq!(msg.metric_type, MetricType::Gauge);
}

#[test]
fn parses_a_timing_and_stops_after_it() {
    let (n, msg) = parse(b"db.query:-7|ms\nnext:1|c\n").unwrap();
    assert_eq!(n, 15);
    assert_eq!(msg.value, -7);
    assert_eq!(msg.metric_type, MetricType::Timing);
}

#[test]
fn plus_sign_and_leading_zeros() {
    let (_, msg) = parse(b"a:+0042|c").unwrap();
    assert_eq!(msg.value, 42);
}

#[test]
fn empty_key_is_accepted() {
    let (n, msg) = parse(b":1|c").unwrap();
    assert_eq!(n, 4);
    assert_eq!(msg.key, "");
}

#[test]
fn incomplete_input_asks_for_more() {
    assert_eq!(parse(b"").unwrap_err(), ParseError::Incomplete);
    assert_eq!(parse(b"key").unwrap_err(), ParseError::Incomplete);
    assert_eq!(parse(b"key,").unwrap_err(), ParseError::Incomplete);
    assert_eq!(parse(b"key,t=v").unwrap_err(), ParseError::Incomplete);
    assert_eq!(parse(b"key:").unwrap_err(), ParseError::Incomplete);
    assert_eq!(parse(b"key:-").unwrap_err(), ParseError::Incomplete);
    assert_eq!(parse(b"key:12").unwrap_err(), ParseError::Incomplete);
    assert_eq!(parse(b"key:12|").unwrap_err(), ParseError::Incomplete);
    assert_eq!(parse(b"key:12|m").unwrap_err(), ParseError::Incomplete);
}

#[test]
fn malformed_input_is_an_error() {
    assert_eq!(parse(b"key 1|c").unwrap_err(), ParseError::Error);
    assert_eq!(parse(b"key:x|c").unwrap_err(), ParseError::Error);
    assert_eq!(parse(b"key:1,c").unwrap_err(), ParseError::Error);
    assert_eq!(parse(b"key:1|x").unwrap_err(), ParseError::Error);
    assert_eq!(parse(b"key:1|mx").unwrap_err(), ParseError::Error);
    assert_eq!(parse(b"key,t:1|c").unwrap_err(), ParseError::Error);
    assert_eq!(parse(b"key,t.x=1:1|c").unwrap_err(), ParseError::Error);
}

#[test]
fn numbers_that_do_not_fit_are_errors() {
    assert_eq!(parse(b"k:99999999999999999999999|c").unwrap_err(), ParseError::Error);
    let max = format!("k:{}|c", isize::MAX);
    assert_eq!(parse(max.as_bytes()).unwrap().1.value, isize::MAX);
    let min = format!("k:-{}|c", isize::MAX);
    assert_eq!(parse(min.as_bytes()).unwrap().1.value, -isize::MAX);
}

#[test]
fn tag_values_may_hold_dots_and_dashes() {
    let (_, msg) = parse(b"k,host=a-1.b_c:3|g").unwrap();
    assert_eq!(msg.tags[0].value, "a-1.b_c");
}
