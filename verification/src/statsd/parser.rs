//! Reading one statsd line, `key,tag=value,...:value|type`, from the start of
//! a buffer that may hold only part of it.
//!
//! The reader is streaming: when the bytes end before the line can be told
//! apart it answers `Incomplete`, and when they cannot start a line it
//! answers `Error`. A line ends after its type, `g` (gauge), `c` (counter)
//! or `ms` (timing), and an optional newline.
use vstd::prelude::*;
use crate::statsd::{MessageView, MetricType, StatsdMessage, Tag, tags_view};

verus! {

/// Why no message could be read.
#[derive(Clone, Copy, Debug, PartialEq, Eq, Structural)]
pub enum ParseError {
    /// The bytes end before a message can be told apart.
    Incomplete,
    /// The bytes cannot start a message.
    Error,
}

/// The bytes that may stand in a run: a key, a tag's key, a tag's value, or
/// a number.
#[derive(Clone, Copy, Debug, PartialEq, Eq, Structural)]
pub enum ByteClass {
    Key,
    TagKey,
    TagValue,
    Digit,
}

/// An ASCII letter or digit.
pub open spec fn is_alphanumeric(c: u8) -> bool {
    (0x41 <= c <= 0x5A) || (0x61 <= c <= 0x7A) || (0x30 <= c <= 0x39)
}

/// An ASCII digit.
pub open spec fn is_digit(c: u8) -> bool {
    0x30 <= c <= 0x39
}

/// Whether the byte may stand in a run of the class.
pub open spec fn in_class(c: u8, class: ByteClass) -> bool {
    match class {
        ByteClass::Key | ByteClass::TagValue => is_alphanumeric(c) || c == 0x2E || c == 0x2D || c
            == 0x5F,
        ByteClass::TagKey => is_alphanumeric(c) || c == 0x5F,
        ByteClass::Digit => is_digit(c),
    }
}

/// Where the longest run of bytes of the class that starts at `p` ends, or
/// `None` when it reaches the end of the bytes (more of the run may follow).
pub open spec fn run_end(s: Seq<u8>, p: int, class: ByteClass) -> Option<int>
    decreases s.len() - p,
{
    if p < 0 || p >= s.len() {
        None
    } else if !in_class(s[p], class) {
        Some(p)
    } else {
        run_end(s, p + 1, class)
    }
}

/// ASCII bytes read as the characters of the same codes.
pub open spec fn ascii_chars(b: Seq<u8>) -> Seq<char> {
    b.map_values(|c: u8| c as char)
}

/// The decimal digits of `n`, as ASCII bytes.
pub open spec fn decimal_bytes(n: nat) -> Seq<u8>
    decreases n,
{
    if n < 10 {
        seq![(0x30 + n) as u8]
    } else {
        decimal_bytes(n / 10).push((0x30 + n % 10) as u8)
    }
}

/// The number the decimal digits write.
pub open spec fn digits_value(d: Seq<u8>) -> int
    decreases d.len(),
{
    if d.len() == 0 {
        0
    } else {
        digits_value(d.drop_last()) * 10 + (d.last() - 0x30)
    }
}

/// One tag at `p`: `key=value`; ends where the value ends.
pub open spec fn spec_tag(s: Seq<u8>, p: int) -> Result<(int, (Seq<char>, Seq<char>)), ParseError> {
    match run_end(s, p, ByteClass::TagKey) {
        None => Err(ParseError::Incomplete),
        Some(k) => if s[k] != 0x3D {
            Err(ParseError::Error)
        } else {
            match run_end(s, k + 1, ByteClass::TagValue) {
                None => Err(ParseError::Incomplete),
                Some(e) => Ok(
                    (e, (ascii_chars(s.subrange(p, k)), ascii_chars(s.subrange(k + 1, e)))),
                ),
            }
        },
    }
}

/// The tags at `p`, each after a comma, for as long as a comma and a tag
/// follow; a comma that does not start a tag ends the list before it.
pub open spec fn spec_tags(s: Seq<u8>, p: int) -> Result<
    (int, Seq<(Seq<char>, Seq<char>)>),
    ParseError,
>
    decreases s.len() - p,
{
    if p < 0 || p >= s.len() {
        Err(ParseError::Incomplete)
    } else if s[p] != 0x2C {
        Ok((p, seq![]))
    } else {
        match spec_tag(s, p + 1) {
            Err(ParseError::Incomplete) => Err(ParseError::Incomplete),
            Err(ParseError::Error) => Ok((p, seq![])),
            Ok((q, t)) => {
                proof {
                    lemma_spec_tag_advances(s, p + 1);
                }
                match spec_tags(s, q) {
                    Err(e) => Err(e),
                    Ok((r, ts)) => Ok((r, seq![t] + ts)),
                }
            },
        }
    }
}

/// The number at `p`: an optional sign, then decimal digits that fit an
/// `isize`.
pub open spec fn spec_value(s: Seq<u8>, p: int) -> Result<(int, isize), ParseError> {
    if p < 0 || p >= s.len() {
        Err(ParseError::Incomplete)
    } else {
        let q = if s[p] == 0x2D || s[p] == 0x2B {
            p + 1
        } else {
            p
        };
        match run_end(s, q, ByteClass::Digit) {
            None => Err(ParseError::Incomplete),
            Some(e) => if e == q {
                Err(ParseError::Error)
            } else {
                let n = digits_value(s.subrange(q, e));
                if n > isize::MAX {
                    Err(ParseError::Error)
                } else if s[p] == 0x2D {
                    Ok((e, (-n) as isize))
                } else {
                    Ok((e, n as isize))
                }
            },
        }
    }
}

/// The metric type at `p`: `g`, `c` or `ms`.
pub open spec fn spec_metric_type(s: Seq<u8>, p: int) -> Result<(int, MetricType), ParseError> {
    if p < 0 || p >= s.len() {
        Err(ParseError::Incomplete)
    } else if s[p] == 0x67 {
        Ok((p + 1, MetricType::Gauge))
    } else if s[p] == 0x63 {
        Ok((p + 1, MetricType::Counter))
    } else if s[p] == 0x6D {
        if p + 1 >= s.len() {
            Err(ParseError::Incomplete)
        } else if s[p + 1] == 0x73 {
            Ok((p + 2, MetricType::Timing))
        } else {
            Err(ParseError::Error)
        }
    } else {
        Err(ParseError::Error)
    }
}

/// The message at the start of `s` and the number of bytes it takes.
pub open spec fn spec_parse(s: Seq<u8>) -> Result<(int, MessageView), ParseError> {
    match run_end(s, 0, ByteClass::Key) {
        None => Err(ParseError::Incomplete),
        Some(k) => match spec_tags(s, k) {
            Err(e) => Err(e),
            Ok((p, tags)) => if p >= s.len() {
                Err(ParseError::Incomplete)
            } else if s[p] != 0x3A {
                Err(ParseError::Error)
            } else {
                match spec_value(s, p + 1) {
                    Err(e) => Err(e),
                    Ok((q, value)) => if q >= s.len() {
                        Err(ParseError::Incomplete)
                    } else if s[q] != 0x7C {
                        Err(ParseError::Error)
                    } else {
                        match spec_metric_type(s, q + 1) {
                            Err(e) => Err(e),
                            Ok((r, metric_type)) => {
                                let end = if r < s.len() && s[r] == 0x0A {
                                    r + 1
                                } else {
                                    r
                                };
                                Ok(
                                    (
                                        end,
                                        MessageView {
                                            key: ascii_chars(s.subrange(0, k)),
                                            tags,
                                            value,
                                            metric_type,
                                        },
                                    ),
                                )
                            },
                        }
                    },
                }
            },
        },
    }
}

/// A run ends inside the bytes, at or after its start, and holds only bytes
/// of its class.
pub proof fn lemma_run_end(s: Seq<u8>, p: int, class: ByteClass)
    requires
        0 <= p,
    ensures
        run_end(s, p, class) matches Some(k) ==> p <= k < s.len() && !in_class(s[k], class)
            && forall|j: int| p <= j < k ==> in_class(#[trigger] s[j], class),
        run_end(s, p, class) is None ==> forall|j: int| p <= j < s.len() ==> in_class(#[trigger] s[j], class),
    decreases s.len() - p,
{
    if p < s.len() && in_class(s[p], class) {
        lemma_run_end(s, p + 1, class);
    }
}

/// A message takes no more bytes than there are.
pub proof fn lemma_parse_within(s: Seq<u8>)
    ensures
        spec_parse(s) matches Ok((n, m)) ==> 0 < n <= s.len(),
{
}

/// A tag takes at least one byte.
pub proof fn lemma_spec_tag_advances(s: Seq<u8>, p: int)
    requires
        0 <= p,
    ensures
        spec_tag(s, p) matches Ok((q, t)) ==> p < q < s.len(),
{
    lemma_run_end(s, p, ByteClass::TagKey);
    if let Some(k) = run_end(s, p, ByteClass::TagKey) {
        lemma_run_end(s, k + 1, ByteClass::TagValue);
    }
}

} // verus!

verus! {

/// `std::str::from_utf8` on ASCII bytes. Its documentation says that it
/// succeeds exactly on valid UTF-8 and keeps the bytes as they are; ASCII
/// bytes are valid UTF-8, each the character of the same code. It is given
/// only ASCII bytes, so the error case does not arise.
#[verifier::external_body]
pub(crate) fn ascii_str(bytes: &[u8]) -> (r: &str)
    requires
        forall|i: int| 0 <= i < bytes@.len() ==> bytes@[i] < 128,
    ensures
        r@ == ascii_chars(bytes@),
{
    std::str::from_utf8(bytes).unwrap()
}

/// Whether the byte may stand in a run of the class.
pub fn byte_in_class(c: u8, class: ByteClass) -> (r: bool)
    ensures
        r == in_class(c, class),
{
    let alphanumeric = (0x41 <= c && c <= 0x5A) || (0x61 <= c && c <= 0x7A) || (0x30 <= c && c
        <= 0x39);
    match class {
        ByteClass::Key | ByteClass::TagValue => alphanumeric || c == 0x2E || c == 0x2D || c == 0x5F,
        ByteClass::TagKey => alphanumeric || c == 0x5F,
        ByteClass::Digit => 0x30 <= c && c <= 0x39,
    }
}

/// Where the run of bytes of the class that starts at `p` ends.
fn find_run_end(s: &[u8], p: usize, class: ByteClass) -> (r: Option<usize>)
    requires
        p <= s@.len(),
    ensures
        r matches Some(k) ==> run_end(s@, p as int, class) == Some(k as int),
        r is None ==> run_end(s@, p as int, class) is None,
{
    let mut i = p;
    while i < s.len()
        invariant
            p <= i <= s@.len(),
            run_end(s@, i as int, class) == run_end(s@, p as int, class),
        decreases s.len() - i,
    {
        if !byte_in_class(s[i], class) {
            return Some(i);
        }
        i = i + 1;
    }
    None
}

/// The bytes `from..to` as text.
fn ascii_text(s: &[u8], from: usize, to: usize) -> (r: String)
    requires
        from <= to <= s@.len(),
        forall|j: int| from <= j < to ==> s@[j] < 128,
    ensures
        r@ == ascii_chars(s@.subrange(from as int, to as int)),
{
    let mut bytes: Vec<u8> = Vec::new();
    let mut i = from;
    while i < to
        invariant
            from <= i <= to,
            to <= s@.len(),
            bytes@ == s@.subrange(from as int, i as int),
        decreases to - i,
    {
        bytes.push(s[i]);
        assert(bytes@ =~= s@.subrange(from as int, i + 1));
        i = i + 1;
    }
    ascii_str(bytes.as_slice()).to_owned()
}

/// One tag at `p`.
fn parse_tag(s: &[u8], p: usize) -> (r: Result<(usize, Tag), ParseError>)
    requires
        p <= s@.len(),
    ensures
        match spec_tag(s@, p as int) {
            Ok((q, t)) => r matches Ok((q2, tag)) && q2 == q && tag@ == t,
            Err(e) => r == Err::<(usize, Tag), ParseError>(e),
        },
{
    proof {
        lemma_run_end(s@, p as int, ByteClass::TagKey);
    }
    let k = match find_run_end(s, p, ByteClass::TagKey) {
        None => {
            return Err(ParseError::Incomplete);
        },
        Some(k) => k,
    };
    if s[k] != 0x3D {
        return Err(ParseError::Error);
    }
    proof {
        lemma_run_end(s@, k + 1, ByteClass::TagValue);
    }
    let e = match find_run_end(s, k + 1, ByteClass::TagValue) {
        None => {
            return Err(ParseError::Incomplete);
        },
        Some(e) => e,
    };
    let key = ascii_text(s, p, k);
    let value = ascii_text(s, k + 1, e);
    Ok((e, Tag { key, value }))
}

/// The tags at `p`, each after a comma.
fn parse_tags(s: &[u8], p: usize) -> (r: Result<(usize, Vec<Tag>), ParseError>)
    requires
        p <= s@.len(),
    ensures
        match spec_tags(s@, p as int) {
            Ok((q, ts)) => r matches Ok((q2, v)) && q2 == q && tags_view(v@) == ts,
            Err(e) => r == Err::<(usize, Vec<Tag>), ParseError>(e),
        },
    decreases s@.len() - p,
{
    if p >= s.len() {
        return Err(ParseError::Incomplete);
    }
    if s[p] != 0x2C {
        let v: Vec<Tag> = Vec::new();
        assert(tags_view(v@) =~= seq![]);
        return Ok((p, v));
    }
    match parse_tag(s, p + 1) {
        Err(ParseError::Incomplete) => Err(ParseError::Incomplete),
        Err(ParseError::Error) => {
            let v: Vec<Tag> = Vec::new();
            assert(tags_view(v@) =~= seq![]);
            Ok((p, v))
        },
        Ok((q, t)) => {
            proof {
                lemma_spec_tag_advances(s@, p + 1);
            }
            match parse_tags(s, q) {
                Err(e) => Err(e),
                Ok((r, ts)) => {
                    let ghost t_view = t@;
                    let ghost rest = tags_view(ts@);
                    let mut ts = ts;
                    ts.insert(0, t);
                    assert(tags_view(ts@) =~= seq![t_view] + rest);
                    Ok((r, ts))
                },
            }
        },
    }
}

/// Decimal digits are worth at least nothing.
proof fn lemma_digits_nonneg(d: Seq<u8>)
    requires
        forall|j: int| 0 <= j < d.len() ==> is_digit(#[trigger] d[j]),
    ensures
        digits_value(d) >= 0,
    decreases d.len(),
{
    if d.len() > 0 {
        lemma_digits_nonneg(d.drop_last());
    }
}

/// More digits are worth at least as much as their first ones.
proof fn lemma_digits_prefix(d: Seq<u8>, i: int)
    requires
        0 <= i <= d.len(),
        forall|j: int| 0 <= j < d.len() ==> is_digit(#[trigger] d[j]),
    ensures
        digits_value(d.take(i)) <= digits_value(d),
    decreases d.len(),
{
    if i < d.len() {
        lemma_digits_prefix(d.drop_last(), i);
        assert(d.drop_last().take(i) =~= d.take(i));
        lemma_digits_nonneg(d.drop_last());
    } else {
        assert(d.take(i) =~= d);
    }
}

/// The number the digits `q..e` write, if it fits an `isize`.
fn digits_to_isize(s: &[u8], q: usize, e: usize) -> (r: Option<isize>)
    requires
        q <= e <= s@.len(),
        forall|j: int| q <= j < e ==> is_digit(#[trigger] s@[j]),
    ensures
        r matches Some(n) ==> n == digits_value(s@.subrange(q as int, e as int)) && n >= 0,
        r is None ==> digits_value(s@.subrange(q as int, e as int)) > isize::MAX,
{
    let ghost d = s@.subrange(q as int, e as int);
    let mut acc: isize = 0;
    let mut i = q;
    assert(s@.subrange(q as int, q as int) =~= seq![]);
    while i < e
        invariant
            q <= i <= e,
            e <= s@.len(),
            d == s@.subrange(q as int, e as int),
            forall|j: int| q <= j < e ==> is_digit(#[trigger] s@[j]),
            acc == digits_value(s@.subrange(q as int, i as int)),
            acc >= 0,
        decreases e - i,
    {
        let digit = (s[i] - 0x30) as isize;
        assert(s@.subrange(q as int, i + 1).drop_last() =~= s@.subrange(q as int, i as int));
        assert(d.take(i + 1 - q) =~= s@.subrange(q as int, i + 1));
        let next = match acc.checked_mul(10) {
            None => None,
            Some(m) => m.checked_add(digit),
        };
        match next {
            None => {
                proof {
                    lemma_digits_prefix(d, i + 1 - q);
                }
                return None;
            },
            Some(n) => {
                acc = n;
            },
        }
        i = i + 1;
    }
    assert(s@.subrange(q as int, e as int) =~= d);
    Some(acc)
}

/// The number at `p`: an optional sign, then decimal digits.
fn parse_value(s: &[u8], p: usize) -> (r: Result<(usize, isize), ParseError>)
    requires
        p <= s@.len(),
    ensures
        match spec_value(s@, p as int) {
            Ok((q, v)) => r matches Ok((q2, v2)) && q2 == q && v2 == v,
            Err(e) => r == Err::<(usize, isize), ParseError>(e),
        },
{
    if p >= s.len() {
        return Err(ParseError::Incomplete);
    }
    let c = s[p];
    let q = if c == 0x2D || c == 0x2B {
        p + 1
    } else {
        p
    };
    proof {
        lemma_run_end(s@, q as int, ByteClass::Digit);
    }
    let e = match find_run_end(s, q, ByteClass::Digit) {
        None => {
            return Err(ParseError::Incomplete);
        },
        Some(e) => e,
    };
    if e == q {
        return Err(ParseError::Error);
    }
    match digits_to_isize(s, q, e) {
        None => Err(ParseError::Error),
        Some(n) => {
            if c == 0x2D {
                Ok((e, -n))
            } else {
                Ok((e, n))
            }
        },
    }
}

/// The metric type at `p`.
fn parse_metric_type(s: &[u8], p: usize) -> (r: Result<(usize, MetricType), ParseError>)
    requires
        p <= s@.len(),
    ensures
        match spec_metric_type(s@, p as int) {
            Ok((q, t)) => r matches Ok((q2, t2)) && q2 == q && t2 == t,
            Err(e) => r == Err::<(usize, MetricType), ParseError>(e),
        },
{
    if p >= s.len() {
        Err(ParseError::Incomplete)
    } else if s[p] == 0x67 {
        Ok((p + 1, MetricType::Gauge))
    } else if s[p] == 0x63 {
        Ok((p + 1, MetricType::Counter))
    } else if s[p] == 0x6D {
        if p + 1 >= s.len() {
            Err(ParseError::Incomplete)
        } else if s[p + 1] == 0x73 {
            Ok((p + 2, MetricType::Timing))
        } else {
            Err(ParseError::Error)
        }
    } else {
        Err(ParseError::Error)
    }
}

/// Reads the message at the start of `input`, with the number of bytes it
/// takes.
pub fn parse(input: &[u8]) -> (r: Result<(usize, StatsdMessage), ParseError>)
    ensures
        match spec_parse(input@) {
            Ok((n, m)) => r matches Ok((n2, msg)) && n2 == n && msg@ == m,
            Err(e) => r == Err::<(usize, StatsdMessage), ParseError>(e),
        },
{
    proof {
        lemma_run_end(input@, 0, ByteClass::Key);
    }
    let k = match find_run_end(input, 0, ByteClass::Key) {
        None => {
            return Err(ParseError::Incomplete);
        },
        Some(k) => k,
    };
    let (p, tags) = match parse_tags(input, k) {
        Err(e) => {
            return Err(e);
        },
        Ok(x) => x,
    };
    if p >= input.len() {
        return Err(ParseError::Incomplete);
    }
    if input[p] != 0x3A {
        return Err(ParseError::Error);
    }
    let (q, value) = match parse_value(input, p + 1) {
        Err(e) => {
            return Err(e);
        },
        Ok(x) => x,
    };
    if q >= input.len() {
        return Err(ParseError::Incomplete);
    }
    if input[q] != 0x7C {
        return Err(ParseError::Error);
    }
    let (r, metric_type) = match parse_metric_type(input, q + 1) {
        Err(e) => {
            return Err(e);
        },
        Ok(x) => x,
    };
    let end = if r < input.len() && input[r] == 0x0A {
        r + 1
    } else {
        r
    };
    let key = ascii_text(input, 0, k);
    Ok((end, StatsdMessage { key, tags, value, metric_type }))
}

} // verus!

verus! {

/// Every byte is of the class.
pub open spec fn all_in_class(b: Seq<u8>, class: ByteClass) -> bool {
    forall|i: int| 0 <= i < b.len() ==> in_class(#[trigger] b[i], class)
}

/// Every tag's key is made of tag-key bytes and its value of tag-value bytes.
pub open spec fn tags_well_formed(tags: Seq<(Seq<u8>, Seq<u8>)>) -> bool {
    forall|i: int|
        0 <= i < tags.len() ==> all_in_class(#[trigger] tags[i].0, ByteClass::TagKey)
            && all_in_class(tags[i].1, ByteClass::TagValue)
}

/// The tags as text.
pub open spec fn tags_chars(tags: Seq<(Seq<u8>, Seq<u8>)>) -> Seq<(Seq<char>, Seq<char>)> {
    tags.map_values(|t: (Seq<u8>, Seq<u8>)| (ascii_chars(t.0), ascii_chars(t.1)))
}

/// The tags written out, each as `,key=value`.
pub open spec fn render_tags(tags: Seq<(Seq<u8>, Seq<u8>)>) -> Seq<u8>
    decreases tags.len(),
{
    if tags.len() == 0 {
        Seq::empty()
    } else {
        seq![0x2Cu8] + tags[0].0 + seq![0x3Du8] + tags[0].1 + render_tags(tags.drop_first())
    }
}

/// A number written out in decimal, with a minus sign when negative.
pub open spec fn render_value(v: isize) -> Seq<u8> {
    if v < 0 {
        seq![0x2Du8] + decimal_bytes((-v) as nat)
    } else {
        decimal_bytes(v as nat)
    }
}

/// A metric type written out: `g`, `c` or `ms`.
pub open spec fn render_metric_type(t: MetricType) -> Seq<u8> {
    match t {
        MetricType::Gauge => seq![0x67u8],
        MetricType::Counter => seq![0x63u8],
        MetricType::Timing => seq![0x6Du8, 0x73u8],
    }
}

/// A whole line: `key,tag=value,...:value|type` and a newline.
pub open spec fn render_line(
    key: Seq<u8>,
    tags: Seq<(Seq<u8>, Seq<u8>)>,
    value: isize,
    t: MetricType,
) -> Seq<u8> {
    key + render_tags(tags) + seq![0x3Au8] + render_value(value) + seq![0x7Cu8]
        + render_metric_type(t) + seq![0x0Au8]
}

/// A run of bytes of a class that a byte of another class closes ends at
/// that byte.
proof fn lemma_run_end_at(s: Seq<u8>, p: int, e: int, class: ByteClass)
    requires
        0 <= p <= e < s.len(),
        forall|j: int| p <= j < e ==> in_class(#[trigger] s[j], class),
        !in_class(s[e], class),
    ensures
        run_end(s, p, class) == Some(e),
    decreases e - p,
{
    if p < e {
        lemma_run_end_at(s, p + 1, e, class);
    }
}

/// The decimal digits of a number are digits, at least one, and write it.
proof fn lemma_decimal_digits(n: nat)
    ensures
        decimal_bytes(n).len() > 0,
        forall|i: int| 0 <= i < decimal_bytes(n).len() ==> is_digit(#[trigger] decimal_bytes(n)[i]),
        digits_value(decimal_bytes(n)) == n,
    decreases n,
{
    let d = decimal_bytes(n);
    if n >= 10 {
        lemma_decimal_digits(n / 10);
        let prefix = decimal_bytes(n / 10);
        assert(d.drop_last() =~= prefix);
        vstd::arithmetic::div_mod::lemma_fundamental_div_mod(n as int, 10);
        assert forall|i: int| 0 <= i < d.len() implies is_digit(#[trigger] d[i]) by {
            if i < prefix.len() {
                assert(d[i] == prefix[i]);
            }
        }
    } else {
        assert(d.drop_last() =~= Seq::<u8>::empty());
        assert(digits_value(Seq::<u8>::empty()) == 0);
    }
}

/// Tags written out and followed by a colon are read back as they were,
/// ending at the colon.
proof fn lemma_tags_read_back(s: Seq<u8>, p: int, tags: Seq<(Seq<u8>, Seq<u8>)>)
    requires
        0 <= p,
        p + render_tags(tags).len() < s.len(),
        forall|i: int|
            0 <= i < render_tags(tags).len() ==> s[p + i] == #[trigger] render_tags(tags)[i],
        s[p + render_tags(tags).len()] == 0x3A,
        tags_well_formed(tags),
    ensures
        spec_tags(s, p) == Ok::<(int, Seq<(Seq<char>, Seq<char>)>), ParseError>(
            (p + render_tags(tags).len(), tags_chars(tags)),
        ),
    decreases tags.len(),
{
    let rt = render_tags(tags);
    if tags.len() == 0 {
        assert(tags_chars(tags) =~= seq![]);
    } else {
        let t = tags[0];
        let rest = tags.drop_first();
        let rr = render_tags(rest);
        let k = p + 1 + t.0.len();
        let e = k + 1 + t.1.len();
        assert(rt == seq![0x2Cu8] + t.0 + seq![0x3Du8] + t.1 + rr);
        assert(rt.len() == 2 + t.0.len() + t.1.len() + rr.len());
        assert(s[p] == 0x2C) by {
            assert(rt[0] == 0x2C);
        }
        assert(all_in_class(t.0, ByteClass::TagKey) && all_in_class(t.1, ByteClass::TagValue));
        assert forall|j: int| p + 1 <= j < k implies in_class(#[trigger] s[j], ByteClass::TagKey) by {
            assert(s[p + (j - p)] == rt[j - p]);
            assert(rt[j - p] == t.0[j - p - 1]);
        }
        assert(s[k] == 0x3D) by {
            assert(s[p + (k - p)] == rt[k - p]);
        }
        lemma_run_end_at(s, p + 1, k, ByteClass::TagKey);
        assert forall|j: int| k + 1 <= j < e implies in_class(#[trigger] s[j], ByteClass::TagValue) by {
            assert(s[p + (j - p)] == rt[j - p]);
            assert(rt[j - p] == t.1[j - k - 1]);
        }
        assert forall|i: int| 0 <= i < rr.len() implies s[e + i] == #[trigger] rr[i] by {
            assert(s[p + (e - p + i)] == rt[e - p + i]);
        }
        if rest.len() > 0 {
            assert(rr[0] == 0x2C);
            assert(s[e] == 0x2C) by {
                assert(s[e + 0] == rr[0]);
            }
        } else {
            assert(rr.len() == 0);
            assert(s[e] == 0x3A);
        }
        lemma_run_end_at(s, k + 1, e, ByteClass::TagValue);
        assert(s.subrange(p + 1, k) =~= t.0) by {
            assert forall|j: int| 0 <= j < t.0.len() implies s.subrange(p + 1, k)[j] == t.0[j] by {
                assert(s[p + (1 + j)] == rt[1 + j]);
            }
        }
        assert(s.subrange(k + 1, e) =~= t.1) by {
            assert forall|j: int| 0 <= j < t.1.len() implies s.subrange(k + 1, e)[j] == t.1[j] by {
                assert(s[p + (k - p + 1 + j)] == rt[k - p + 1 + j]);
            }
        }
        assert forall|i: int| 0 <= i < rest.len() implies all_in_class(
            #[trigger] rest[i].0,
            ByteClass::TagKey,
        ) && all_in_class(rest[i].1, ByteClass::TagValue) by {
            assert(rest[i] == tags[i + 1]);
        }
        assert(s[e + rr.len()] == 0x3A);
        lemma_tags_read_back(s, e, rest);
        assert(tags_chars(tags) =~= seq![(ascii_chars(t.0), ascii_chars(t.1))] + tags_chars(rest));
    }
}

/// A line written in the statsd format is read back as the message it
/// writes, taking exactly its bytes, whatever follows it. The one number
/// that cannot be read back is `isize::MIN`, whose digits do not fit an
/// `isize` before the sign is applied.
pub proof fn lemma_parse_line(
    key: Seq<u8>,
    tags: Seq<(Seq<u8>, Seq<u8>)>,
    value: isize,
    t: MetricType,
    rest: Seq<u8>,
)
    requires
        all_in_class(key, ByteClass::Key),
        tags_well_formed(tags),
        value != isize::MIN,
    ensures
        spec_parse(render_line(key, tags, value, t) + rest) == Ok::<(int, MessageView), ParseError>(
            (
                render_line(key, tags, value, t).len() as int,
                MessageView {
                    key: ascii_chars(key),
                    tags: tags_chars(tags),
                    value,
                    metric_type: t,
                },
            ),
        ),
{
    let line = render_line(key, tags, value, t);
    let s = line + rest;
    let tr = render_tags(tags);
    let vr = render_value(value);
    let ty = render_metric_type(t);
    let k = key.len() as int;
    let p = k + tr.len();
    let q = p + 1;
    let e = q + vr.len();
    let r = e + 1 + ty.len();
    assert(line == key + tr + seq![0x3Au8] + vr + seq![0x7Cu8] + ty + seq![0x0Au8]);
    assert(line.len() == r + 1);
    assert forall|i: int| 0 <= i < line.len() implies s[i] == #[trigger] line[i] by {}
    // The key, closed by a comma or the colon.
    assert forall|j: int| 0 <= j < k implies in_class(#[trigger] s[j], ByteClass::Key) by {
        assert(s[j] == key[j]);
    }
    if tr.len() > 0 {
        assert(tr[0] == 0x2C);
        assert(s[k] == tr[0]);
    } else {
        assert(s[k] == 0x3A);
    }
    lemma_run_end_at(s, 0, k, ByteClass::Key);
    assert(s.subrange(0, k) =~= key);
    // The tags, closed by the colon.
    assert forall|i: int| 0 <= i < tr.len() implies s[k + i] == #[trigger] tr[i] by {}
    assert(s[p] == 0x3A);
    lemma_tags_read_back(s, k, tags);
    // The number, closed by the bar.
    let n: nat = if value < 0 {
        (-value) as nat
    } else {
        value as nat
    };
    let digits = decimal_bytes(n);
    lemma_decimal_digits(n);
    let d0 = if value < 0 {
        q + 1
    } else {
        q
    };
    assert forall|i: int| 0 <= i < vr.len() implies s[q + i] == #[trigger] vr[i] by {}
    assert forall|i: int| 0 <= i < digits.len() implies s[d0 + i] == #[trigger] digits[i] by {
        if value < 0 {
            assert(vr[1 + i] == digits[i]);
            assert(s[q + (1 + i)] == vr[1 + i]);
        } else {
            assert(s[q + i] == vr[i]);
        }
    }
    assert(e == d0 + digits.len());
    if value < 0 {
        assert(s[q] == 0x2D) by {
            assert(s[q + 0] == vr[0]);
        }
    } else {
        assert(s[q] == digits[0]) by {
            assert(s[d0 + 0] == digits[0]);
        }
        assert(is_digit(digits[0]));
    }
    assert(s[e] == 0x7C);
    assert forall|j: int| d0 <= j < e implies in_class(#[trigger] s[j], ByteClass::Digit) by {
        assert(s[d0 + (j - d0)] == digits[j - d0]);
    }
    lemma_run_end_at(s, d0, e, ByteClass::Digit);
    assert(s.subrange(d0, e) =~= digits) by {
        assert forall|j: int| 0 <= j < digits.len() implies s.subrange(d0, e)[j] == digits[j] by {
            assert(s[d0 + j] == digits[j]);
        }
    }
    assert(spec_value(s, q) == Ok::<(int, isize), ParseError>((e, value)));
    // The type and the newline.
    assert(s[e + 1] == ty[0]);
    if t == MetricType::Timing {
        assert(s[e + 2] == ty[1]);
    }
    assert(spec_metric_type(s, e + 1) == Ok::<(int, MetricType), ParseError>((r, t)));
    assert(s[r] == 0x0A);
}

/// Which bytes may stand in each run: in a key and in a tag's value, the
/// ASCII letters of either case, the digits, `.`, `-` and `_`; in a tag's
/// key, the letters, the digits and `_`; in a number, the digits.
pub proof fn lemma_byte_classes(c: u8)
    ensures
        in_class(c, ByteClass::Key) <==> (0x41 <= c <= 0x5A || 0x61 <= c <= 0x7A || 0x30 <= c
            <= 0x39 || c == 0x2E || c == 0x2D || c == 0x5F),
        in_class(c, ByteClass::TagValue) <==> (0x41 <= c <= 0x5A || 0x61 <= c <= 0x7A || 0x30
            <= c <= 0x39 || c == 0x2E || c == 0x2D || c == 0x5F),
        in_class(c, ByteClass::TagKey) <==> (0x41 <= c <= 0x5A || 0x61 <= c <= 0x7A || 0x30 <= c
            <= 0x39 || c == 0x5F),
        in_class(c, ByteClass::Digit) <==> 0x30 <= c <= 0x39,
{
}

/// A line whose key and tags are made of ASCII letters (of either case) and
/// digits is read back as the message it writes.
pub proof fn lemma_parse_alphanumeric_line(
    key: Seq<u8>,
    tags: Seq<(Seq<u8>, Seq<u8>)>,
    value: isize,
    t: MetricType,
    rest: Seq<u8>,
)
    requires
        forall|i: int|
            0 <= i < key.len() ==> 0x41 <= #[trigger] key[i] <= 0x5A || 0x61 <= key[i] <= 0x7A
                || 0x30 <= key[i] <= 0x39,
        forall|j: int, i: int|
            0 <= j < tags.len() && 0 <= i < tags[j].0.len() ==> 0x41 <= #[trigger] tags[j].0[i]
                <= 0x5A || 0x61 <= tags[j].0[i] <= 0x7A || 0x30 <= tags[j].0[i] <= 0x39,
        forall|j: int, i: int|
            0 <= j < tags.len() && 0 <= i < tags[j].1.len() ==> 0x41 <= #[trigger] tags[j].1[i]
                <= 0x5A || 0x61 <= tags[j].1[i] <= 0x7A || 0x30 <= tags[j].1[i] <= 0x39,
        value != isize::MIN,
    ensures
        spec_parse(render_line(key, tags, value, t) + rest) == Ok::<(int, MessageView), ParseError>(
            (
                render_line(key, tags, value, t).len() as int,
                MessageView {
                    key: ascii_chars(key),
                    tags: tags_chars(tags),
                    value,
                    metric_type: t,
                },
            ),
        ),
{
    assert forall|i: int| 0 <= i < key.len() implies in_class(#[trigger] key[i], ByteClass::Key) by {
        lemma_byte_classes(key[i]);
    }
    assert forall|j: int| 0 <= j < tags.len() implies all_in_class(
        #[trigger] tags[j].0,
        ByteClass::TagKey,
    ) && all_in_class(tags[j].1, ByteClass::TagValue) by {
        assert forall|i: int| 0 <= i < tags[j].0.len() implies in_class(
            #[trigger] tags[j].0[i],
            ByteClass::TagKey,
        ) by {
            lemma_byte_classes(tags[j].0[i]);
        }
        assert forall|i: int| 0 <= i < tags[j].1.len() implies in_class(
            #[trigger] tags[j].1[i],
            ByteClass::TagValue,
        ) by {
            lemma_byte_classes(tags[j].1[i]);
        }
    }
    lemma_parse_line(key, tags, value, t, rest);
}

} // verus!
