use bytes::BytesMut;
use grad::statsd::parser::ParseError;
use grad::statsd::{MetricType, StatsdCodec};

#[test]
fn decode_takes_one_message_off_the_buffer() {
    let mut codec = StatsdCodec::new();
    let mut buf = BytesMut::from(&b"a:1|c\nb,x=y:2|g\n"[..]);
    let first = codec.decode(&mut buf).unwrap().unwrap();
    assert_eq!(first.key, "a");
    assert_eq!(first.value, 1);
    assert_eq!(&buf[..], &b"b,x=y:2|g\n"[..]);
    let second = codec.decode(&mut buf).unwrap().unwrap();
    assert_eq!(second.key, "b");
    assert_eq!(second.tags[0].key, "x");
    assert_eq!(second.metric_type, MetricType::Gauge);
    assert!(buf.is_empty());
}

#[test]
fn decode_waits_for_more_and_keeps_the_buffer() {
    let mut codec = StatsdCodec::new();
    let mut buf = BytesMut::from(&b"a:1|"[..]);
    assert!(codec.decode(&mut buf).unwrap().is_none());
    assert_eq!(&buf[..], &b"a:1|"[..]);
}

#[test]
fn decode_reports_errors_and_keeps_the_buffer() {
    let mut codec = StatsdCodec::new();
    let mut buf = BytesMut::from(&b"a:z|c\n"[..]);
    assert_eq!(codec.decode(&mut buf).unwrap_err(), ParseError::Error);
    assert_eq!(&buf[..], &b"a:z|c\n"[..]);
}
