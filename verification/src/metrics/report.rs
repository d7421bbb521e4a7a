//! The text summary of the store: how many series and values it holds, and
//! one line per series and list of tags with its count and type.
use vstd::prelude::*;
use crate::metrics::StateResult;
use crate::statsd::parser::{ascii_chars, ascii_str, decimal_bytes};
use crate::statsd::{MetricType, Tag, tags_view};

verus! {

/// `n` written in decimal.
pub open spec fn decimal_text(n: nat) -> Seq<char> {
    ascii_chars(decimal_bytes(n))
}

/// The name of a metric type.
pub open spec fn metric_type_text(t: MetricType) -> Seq<char> {
    match t {
        MetricType::Counter => "Counter"@,
        MetricType::Timing => "Timing"@,
        MetricType::Gauge => "Gauge"@,
    }
}

/// The tags, each as `, key=value`.
pub open spec fn tags_text(tags: Seq<(Seq<char>, Seq<char>)>) -> Seq<char>
    decreases tags.len(),
{
    if tags.len() == 0 {
        Seq::empty()
    } else {
        tags_text(tags.drop_last()) + ", "@ + tags.last().0 + "="@ + tags.last().1
    }
}

/// One line per tag group of a series: `\nkey[count]: Type, tag=value...`.
pub open spec fn group_lines(key: Seq<char>, t: MetricType, groups: Seq<(Vec<Tag>, usize)>) -> Seq<
    char,
>
    decreases groups.len(),
{
    if groups.len() == 0 {
        Seq::empty()
    } else {
        group_lines(key, t, groups.drop_last()) + "\n"@ + key + "["@ + decimal_text(
            groups.last().1 as nat,
        ) + "]: "@ + metric_type_text(t) + tags_text(tags_view(groups.last().0@))
    }
}

/// The lines of all series, in the order of the summary.
pub open spec fn series_lines(entries: Seq<(String, (MetricType, Vec<(Vec<Tag>, usize)>))>) -> Seq<
    char,
>
    decreases entries.len(),
{
    if entries.len() == 0 {
        Seq::empty()
    } else {
        series_lines(entries.drop_last()) + group_lines(
            entries.last().0@,
            entries.last().1.0,
            entries.last().1.1@,
        )
    }
}

/// The whole text: `N series, M values\n`, then the lines of each series.
pub open spec fn spec_report(state: StateResult) -> Seq<char> {
    decimal_text(state.series@.len()) + " series, "@ + decimal_text(state.counter as nat)
        + " values\n"@ + series_lines(state.series@)
}

/// Appends the decimal digits of `n`.
fn push_decimal(n: usize, out: &mut Vec<u8>)
    ensures
        final(out)@ == old(out)@ + decimal_bytes(n as nat),
    decreases n,
{
    if n >= 10 {
        push_decimal(n / 10, out);
    }
    out.push((0x30 + n % 10) as u8);
    proof {
        if n < 10 {
            assert(n % 10 == n);
        }
    }
}

/// `n` written in decimal.
fn decimal_string(n: usize) -> (r: String)
    ensures
        r@ == decimal_text(n as nat),
{
    let mut bytes: Vec<u8> = Vec::new();
    push_decimal(n, &mut bytes);
    proof {
        lemma_decimal_ascii(n as nat);
        assert(bytes@ =~= decimal_bytes(n as nat));
    }
    ascii_str(bytes.as_slice()).to_owned()
}

/// Decimal digits are ASCII.
proof fn lemma_decimal_ascii(n: nat)
    ensures
        forall|i: int| 0 <= i < decimal_bytes(n).len() ==> decimal_bytes(n)[i] < 128,
    decreases n,
{
    if n >= 10 {
        lemma_decimal_ascii(n / 10);
        let d = decimal_bytes(n / 10);
        assert(n % 10 < 10);
        assert forall|i: int| 0 <= i < decimal_bytes(n).len() implies decimal_bytes(n)[i] < 128 by {
            if i < d.len() {
                assert(decimal_bytes(n)[i] == d[i]);
            }
        }
    }
}

/// The name of a metric type.
fn metric_type_label(t: MetricType) -> (r: &'static str)
    ensures
        r@ == metric_type_text(t),
{
    match t {
        MetricType::Counter => "Counter",
        MetricType::Timing => "Timing",
        MetricType::Gauge => "Gauge",
    }
}

/// The text summary of the store, as sent to readers of the series page.
pub fn series_report(state: &StateResult) -> (r: String)
    ensures
        r@ == spec_report(*state),
{
    let mut s = decimal_string(state.series.len());
    s.append(" series, ");
    let counter = decimal_string(state.counter);
    s.append(counter.as_str());
    s.append(" values\n");
    let ghost head = s@;
    let mut i: usize = 0;
    while i < state.series.len()
        invariant
            i <= state.series@.len(),
            s@ == head + series_lines(state.series@.take(i as int)),
        decreases state.series.len() - i,
    {
        let key = &state.series[i].0;
        let t = state.series[i].1.0;
        let groups = &state.series[i].1.1;
        let ghost before = s@;
        let mut j: usize = 0;
        while j < groups.len()
            invariant
                j <= groups@.len(),
                s@ == before + group_lines(key@, t, groups@.take(j as int)),
            decreases groups.len() - j,
        {
            s.append("\n");
            s.append(key.as_str());
            s.append("[");
            let count = decimal_string(groups[j].1);
            s.append(count.as_str());
            s.append("]: ");
            s.append(metric_type_label(t));
            let tags = &groups[j].0;
            let ghost line = s@;
            let mut k: usize = 0;
            while k < tags.len()
                invariant
                    k <= tags@.len(),
                    s@ == line + tags_text(tags_view(tags@).take(k as int)),
                decreases tags.len() - k,
            {
                s.append(", ");
                s.append(tags[k].key.as_str());
                s.append("=");
                s.append(tags[k].value.as_str());
                proof {
                    let tv = tags_view(tags@);
                    assert(tv.take(k + 1).drop_last() =~= tv.take(k as int));
                }
                k = k + 1;
            }
            proof {
                assert(tags_view(tags@).take(tags@.len() as int) =~= tags_view(tags@));
                assert(groups@.take(j + 1).drop_last() =~= groups@.take(j as int));
            }
            j = j + 1;
        }
        proof {
            assert(groups@.take(groups@.len() as int) =~= groups@);
            assert(state.series@.take(i + 1).drop_last() =~= state.series@.take(i as int));
        }
        i = i + 1;
    }
    proof {
        assert(state.series@.take(state.series@.len() as int) =~= state.series@);
    }
    s
}

/// The lines of two lists of groups, one after the other.
proof fn lemma_group_lines_add(
    key: Seq<char>,
    t: MetricType,
    a: Seq<(Vec<Tag>, usize)>,
    b: Seq<(Vec<Tag>, usize)>,
)
    ensures
        group_lines(key, t, a + b) == group_lines(key, t, a) + group_lines(key, t, b),
    decreases b.len(),
{
    if b.len() == 0 {
        assert(a + b =~= a);
        assert(group_lines(key, t, a) + group_lines(key, t, b) =~= group_lines(key, t, a));
    } else {
        assert((a + b).drop_last() =~= a + b.drop_last());
        assert((a + b).last() == b.last());
        lemma_group_lines_add(key, t, a, b.drop_last());
        let last = "\n"@ + key + "["@ + decimal_text(b.last().1 as nat) + "]: "@
            + metric_type_text(t) + tags_text(tags_view(b.last().0@));
        assert(group_lines(key, t, a + b) =~= group_lines(key, t, a) + group_lines(
            key,
            t,
            b.drop_last(),
        ) + last);
        assert(group_lines(key, t, b) =~= group_lines(key, t, b.drop_last()) + last);
    }
}

/// The lines of two lists of series, one after the other.
proof fn lemma_series_lines_add(
    a: Seq<(String, (MetricType, Vec<(Vec<Tag>, usize)>))>,
    b: Seq<(String, (MetricType, Vec<(Vec<Tag>, usize)>))>,
)
    ensures
        series_lines(a + b) == series_lines(a) + series_lines(b),
    decreases b.len(),
{
    if b.len() == 0 {
        assert(a + b =~= a);
        assert(series_lines(a) + series_lines(b) =~= series_lines(a));
    } else {
        assert((a + b).drop_last() =~= a + b.drop_last());
        assert((a + b).last() == b.last());
        lemma_series_lines_add(a, b.drop_last());
        let last = group_lines(b.last().0@, b.last().1.0, b.last().1.1@);
        assert(series_lines(a + b) =~= series_lines(a) + series_lines(b.drop_last()) + last);
        assert(series_lines(b) =~= series_lines(b.drop_last()) + last);
    }
}

/// The text lists every tag group of every series on a line of its own:
/// a newline, the series' key, the group's count in brackets, the series'
/// type, and the group's tags, each as `, key=value`.
pub proof fn lemma_report_lists_every_group(state: StateResult, i: int, j: int)
    requires
        0 <= i < state.series@.len(),
        0 <= j < state.series@[i].1.1@.len(),
    ensures
        ({
            let entry = state.series@[i];
            let group = entry.1.1@[j];
            let line = "\n"@ + entry.0@ + "["@ + decimal_text(group.1 as nat) + "]: "@
                + metric_type_text(entry.1.0) + tags_text(tags_view(group.0@));
            exists|off: int|
                0 <= off && off + line.len() <= spec_report(state).len() && #[trigger] spec_report(
                    state,
                ).subrange(off, off + line.len()) == line
        }),
{
    let e = state.series@;
    let entry = e[i];
    let key = entry.0@;
    let t = entry.1.0;
    let g = entry.1.1@;
    let group = g[j];
    let line = "\n"@ + key + "["@ + decimal_text(group.1 as nat) + "]: "@ + metric_type_text(t)
        + tags_text(tags_view(group.0@));
    // The groups around the one asked for.
    let g1 = g.take(j);
    let g2 = g.skip(j + 1);
    assert(g =~= g1 + seq![group] + g2);
    lemma_group_lines_add(key, t, g1 + seq![group], g2);
    lemma_group_lines_add(key, t, g1, seq![group]);
    assert(seq![group].drop_last() =~= Seq::<(Vec<Tag>, usize)>::empty());
    assert(group_lines(key, t, Seq::<(Vec<Tag>, usize)>::empty()) =~= Seq::<char>::empty());
    assert(seq![group].last() == group);
    assert(group_lines(key, t, seq![group]) =~= line);
    // The series around the one asked for.
    let e1 = e.take(i);
    let e2 = e.skip(i + 1);
    assert(e =~= e1 + seq![entry] + e2);
    lemma_series_lines_add(e1 + seq![entry], e2);
    lemma_series_lines_add(e1, seq![entry]);
    assert(seq![entry].drop_last() =~= Seq::<(String, (MetricType, Vec<(Vec<Tag>, usize)>))>::empty());
    assert(series_lines(Seq::<(String, (MetricType, Vec<(Vec<Tag>, usize)>))>::empty())
        =~= Seq::<char>::empty());
    assert(seq![entry].last() == entry);
    assert(series_lines(seq![entry]) =~= group_lines(key, t, g));
    let head = decimal_text(e.len()) + " series, "@ + decimal_text(state.counter as nat)
        + " values\n"@;
    let report = spec_report(state);
    let before = head + series_lines(e1) + group_lines(key, t, g1);
    assert(report =~= before + line + group_lines(key, t, g2) + series_lines(e2));
    let off = before.len() as int;
    assert(report.subrange(off, off + line.len()) =~= line);
}

} // verus!
