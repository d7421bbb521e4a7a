//! Metrics in the statsd line format, with InfluxDB-style tags:
//! `key,tag=value,...:value|type`.
use vstd::prelude::*;

pub mod parser;

use crate::statsd::parser::{ParseError, parse, spec_parse};

verus! {

/// A `key=value` pair attached to a metric.
#[derive(Clone, Debug, PartialEq, Eq, Hash)]
pub struct Tag {
    pub key: String,
    pub value: String,
}

/// The three kinds of metrics the statsd format knows.
#[derive(Clone, Copy, Debug, PartialEq, Eq, Structural)]
pub enum MetricType {
    Counter,
    Timing,
    Gauge,
}

/// One metric as it arrived.
#[derive(Clone, Debug, PartialEq)]
pub struct StatsdMessage {
    pub key: String,
    pub tags: Vec<Tag>,
    pub value: isize,
    pub metric_type: MetricType,
}

impl View for Tag {
    type V = (Seq<char>, Seq<char>);

    open spec fn view(&self) -> (Seq<char>, Seq<char>) {
        (self.key@, self.value@)
    }
}

/// The text of each tag of a list.
pub open spec fn tags_view(tags: Seq<Tag>) -> Seq<(Seq<char>, Seq<char>)> {
    tags.map_values(|t: Tag| t@)
}

/// A message as text and numbers.
pub struct MessageView {
    pub key: Seq<char>,
    pub tags: Seq<(Seq<char>, Seq<char>)>,
    pub value: isize,
    pub metric_type: MetricType,
}

impl View for StatsdMessage {
    type V = MessageView;

    open spec fn view(&self) -> MessageView {
        MessageView {
            key: self.key@,
            tags: tags_view(self.tags@),
            value: self.value,
            metric_type: self.metric_type,
        }
    }
}

/// Copies a tag; the copy has the same text.
pub fn copy_tag(tag: &Tag) -> (r: Tag)
    ensures
        r@ == tag@,
{
    Tag { key: tag.key.clone(), value: tag.value.clone() }
}

/// Copies a list of tags; the copy has the same text, tag by tag.
pub fn copy_tags(tags: &Vec<Tag>) -> (r: Vec<Tag>)
    ensures
        tags_view(r@) == tags_view(tags@),
{
    let mut r: Vec<Tag> = Vec::new();
    let mut i: usize = 0;
    while i < tags.len()
        invariant
            i <= tags.len(),
            r@.len() == i,
            forall|j: int| 0 <= j < i ==> #[trigger] r@[j]@ == tags@[j]@,
        decreases tags.len() - i,
    {
        r.push(copy_tag(&tags[i]));
        i = i + 1;
    }
    assert(tags_view(r@) =~= tags_view(tags@));
    r
}

/// Whether two lists of tags hold the same text, tag by tag.
pub fn same_tags(a: &Vec<Tag>, b: &Vec<Tag>) -> (r: bool)
    ensures
        r == (tags_view(a@) == tags_view(b@)),
{
    if a.len() != b.len() {
        assert(tags_view(a@).len() != tags_view(b@).len());
        return false;
    }
    let mut i: usize = 0;
    while i < a.len()
        invariant
            a.len() == b.len(),
            i <= a.len(),
            forall|j: int| 0 <= j < i ==> a@[j]@ == b@[j]@,
        decreases a.len() - i,
    {
        if a[i].key != b[i].key || a[i].value != b[i].value {
            assert(tags_view(a@)[i as int] != tags_view(b@)[i as int]);
            return false;
        }
        i = i + 1;
    }
    assert(tags_view(a@) =~= tags_view(b@));
    true
}

/// `bytes::BytesMut`, the growable byte buffer that datagrams arrive in.
#[verifier::external_type_specification]
#[verifier::external_body]
pub struct ExBytesMut(bytes::BytesMut);

/// The bytes a buffer holds, in order.
pub uninterp spec fn buffer_contents(buf: bytes::BytesMut) -> Seq<u8>;

/// `<BytesMut as AsRef<[u8]>>::as_ref`: the bytes the buffer holds, as a
/// slice.
#[verifier::external_body]
fn buffer_bytes(buf: &bytes::BytesMut) -> (r: &[u8])
    ensures
        r@ == buffer_contents(*buf),
{
    buf.as_ref()
}

/// `BytesMut::split_to`: the buffer keeps the bytes from `at` on and the
/// first `at` bytes are handed back; its documentation says it panics when
/// `at` exceeds the length, which `requires` rules out.
#[verifier::external_body]
fn buffer_split_to(buf: &mut bytes::BytesMut, at: usize) -> (r: bytes::BytesMut)
    requires
        at <= buffer_contents(*old(buf)).len(),
    ensures
        buffer_contents(r) == buffer_contents(*old(buf)).take(at as int),
        buffer_contents(*final(buf)) == buffer_contents(*old(buf)).skip(at as int),
{
    buf.split_to(at)
}

/// Cuts statsd messages out of a byte buffer, one at a time.
pub struct StatsdCodec {}

impl StatsdCodec {
    /// A codec; it keeps no state.
    pub fn new() -> StatsdCodec {
        StatsdCodec {}
    }

    /// Reads the message at the start of the buffer and removes its bytes.
    /// When the buffer ends before a message can be told apart, nothing is
    /// removed and there is no message yet; when the bytes cannot start a
    /// message, nothing is removed and the error is returned.
    pub fn decode(&mut self, buf: &mut bytes::BytesMut) -> (r: Result<Option<StatsdMessage>, ParseError>)
        ensures
            match spec_parse(buffer_contents(*old(buf))) {
                Ok((n, m)) => r matches Ok(Some(msg)) && msg@ == m && buffer_contents(*final(buf))
                    == buffer_contents(*old(buf)).skip(n),
                Err(ParseError::Incomplete) => r matches Ok(None) && buffer_contents(*final(buf))
                    == buffer_contents(*old(buf)),
                Err(ParseError::Error) => r matches Err(ParseError::Error) && buffer_contents(
                    *final(buf),
                ) == buffer_contents(*old(buf)),
            },
    {
        let parsed = parse(buffer_bytes(buf));
        match parsed {
            Err(ParseError::Incomplete) => Ok(None),
            Err(ParseError::Error) => Err(ParseError::Error),
            Ok((consumed, msg)) => {
                proof {
                    crate::statsd::parser::lemma_parse_within(buffer_contents(*buf));
                }
                let _taken = buffer_split_to(buf, consumed);
                Ok(Some(msg))
            },
        }
    }
}

} // verus!
