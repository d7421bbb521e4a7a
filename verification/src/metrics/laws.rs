//! What storing and reading back promise across calls.
use vstd::prelude::*;
use crate::clock::Timespec;
use crate::metrics::{
    Aggregate, AggregateFunction, MetricsView, Query, ValueView, after, count_tagged, counts_tags,
    lemma_count_push, lemma_filter_push, query_defined, spec_insert, spec_query, value_point,
};
use crate::statsd::{MessageView, MetricType, Tag, tags_view};

verus! {

/// Reading a series back as it is, after a message was stored under its
/// key, gives what it gave before (nothing, for a new key), followed by the
/// new value when it arrived after `since`.
pub proof fn lemma_insert_then_query(
    m: MetricsView,
    msg: MessageView,
    now: Timespec,
    q: Query,
    at: Timespec,
)
    requires
        q.key@ == msg.key,
        q.aggregate.function == AggregateFunction::Raw,
    ensures
        spec_query(spec_insert(m, msg, now), q, at) == Some(
            match spec_query(m, q, at) {
                Some(points) => points,
                None => Seq::<(i64, isize)>::empty(),
            } + if now.sec > q.range.since as i64 {
                seq![(now.sec, msg.value)]
            } else {
                Seq::<(i64, isize)>::empty()
            },
        ),
{
    let since = q.range.since as i64;
    let v = ValueView { timestamp: now, tags: msg.tags, value: msg.value };
    let old_values = if m.series.contains_key(msg.key) {
        m.series[msg.key].values
    } else {
        Seq::<ValueView>::empty()
    };
    let new_values = spec_insert(m, msg, now).series[msg.key].values;
    assert(new_values =~= old_values.push(v));
    let old_points = old_values.map_values(|w: ValueView| value_point(w));
    assert(new_values.map_values(|w: ValueView| value_point(w)) =~= old_points.push(
        (now.sec, msg.value),
    ));
    lemma_filter_push(old_points, (now.sec, msg.value), since);
    if !m.series.contains_key(msg.key) {
        reveal(Seq::filter);
        assert(old_points =~= Seq::<(i64, isize)>::empty());
        assert(old_points.filter(after(since)) =~= Seq::<(i64, isize)>::empty());
    }
    if now.sec > since {
        assert(old_points.filter(after(since)).push((now.sec, msg.value)) =~= old_points.filter(
            after(since),
        ) + seq![(now.sec, msg.value)]);
    } else {
        assert(old_points.filter(after(since)) =~= old_points.filter(after(since))
            + Seq::<(i64, isize)>::empty());
    }
}

/// Storing a message under one key changes no answer about another key.
pub proof fn lemma_insert_other_key(
    m: MetricsView,
    msg: MessageView,
    now: Timespec,
    q: Query,
    at: Timespec,
)
    requires
        q.key@ != msg.key,
    ensures
        spec_query(spec_insert(m, msg, now), q, at) == spec_query(m, q, at),
{
    assert(spec_insert(m, msg, now).series.contains_key(q.key@) == m.series.contains_key(q.key@));
    if m.series.contains_key(q.key@) {
        assert(spec_insert(m, msg, now).series[q.key@] == m.series[q.key@]);
    }
}

/// The sum of the counts of a list of tag groups.
pub open spec fn group_total(groups: Seq<(Vec<Tag>, usize)>) -> int
    decreases groups.len(),
{
    if groups.len() == 0 {
        0
    } else {
        groups[0].1 + group_total(groups.drop_first())
    }
}

/// The sum of the tag counts of all entries of a summary.
pub open spec fn summary_total(entries: Seq<(String, (MetricType, Vec<(Vec<Tag>, usize)>))>) -> int
    decreases entries.len(),
{
    if entries.len() == 0 {
        0
    } else {
        summary_total(entries.drop_last()) + group_total(entries.last().1.1@)
    }
}

/// How many values carry each of the tag lists, added up.
pub open spec fn counted_total(lists: Seq<Seq<(Seq<char>, Seq<char>)>>, values: Seq<ValueView>) -> int
    decreases lists.len(),
{
    if lists.len() == 0 {
        0
    } else {
        count_tagged(values, lists[0]) + counted_total(lists.drop_first(), values)
    }
}

/// How many of the tag lists equal `t`.
pub open spec fn occurrences(lists: Seq<Seq<(Seq<char>, Seq<char>)>>, t: Seq<(Seq<char>, Seq<char>)>) -> int
    decreases lists.len(),
{
    if lists.len() == 0 {
        0
    } else {
        (if lists[0] == t {
            1int
        } else {
            0int
        }) + occurrences(lists.drop_first(), t)
    }
}

/// A list that holds `t` once counts it once; one that does not, never.
proof fn lemma_occurrences(lists: Seq<Seq<(Seq<char>, Seq<char>)>>, t: Seq<(Seq<char>, Seq<char>)>)
    requires
        forall|i: int, j: int| 0 <= i < lists.len() && 0 <= j < lists.len() && i != j ==> lists[i] != lists[j],
    ensures
        occurrences(lists, t) == if lists.contains(t) {
            1int
        } else {
            0int
        },
    decreases lists.len(),
{
    if lists.len() > 0 {
        let rest = lists.drop_first();
        lemma_occurrences(rest, t);
        if lists[0] == t {
            assert(!rest.contains(t)) by {
                if rest.contains(t) {
                    let j = choose|j: int| 0 <= j < rest.len() && rest[j] == t;
                    assert(lists[j + 1] == lists[0]);
                }
            }
        } else {
            assert(lists.contains(t) == rest.contains(t)) by {
                if lists.contains(t) {
                    let j = choose|j: int| 0 <= j < lists.len() && lists[j] == t;
                    assert(rest[j - 1] == t);
                }
                if rest.contains(t) {
                    let j = choose|j: int| 0 <= j < rest.len() && rest[j] == t;
                    assert(lists[j + 1] == t);
                }
            }
        }
    }
}

/// Adding a value adds, to the counts of all lists, the number of lists
/// equal to its tags.
proof fn lemma_counted_total_push(
    lists: Seq<Seq<(Seq<char>, Seq<char>)>>,
    values: Seq<ValueView>,
    v: ValueView,
)
    ensures
        counted_total(lists, values.push(v)) == counted_total(lists, values) + occurrences(
            lists,
            v.tags,
        ),
    decreases lists.len(),
{
    if lists.len() > 0 {
        lemma_counted_total_push(lists.drop_first(), values, v);
        lemma_count_push(values, v, lists[0]);
    }
}

/// Lists that hold each list of tags of the values once count every value
/// once.
proof fn lemma_counted_total(lists: Seq<Seq<(Seq<char>, Seq<char>)>>, values: Seq<ValueView>)
    requires
        forall|i: int, j: int| 0 <= i < lists.len() && 0 <= j < lists.len() && i != j ==> lists[i] != lists[j],
        forall|k: int| 0 <= k < values.len() ==> lists.contains(#[trigger] values[k].tags),
    ensures
        counted_total(lists, values) == values.len(),
    decreases values.len(),
{
    if values.len() == 0 {
        lemma_counted_total_empty(lists, values);
    } else {
        let init = values.drop_last();
        assert forall|k: int| 0 <= k < init.len() implies lists.contains(#[trigger] init[k].tags) by {
            assert(init[k] == values[k]);
        }
        lemma_counted_total(lists, init);
        assert(init.push(values.last()) =~= values);
        lemma_counted_total_push(lists, init, values.last());
        lemma_occurrences(lists, values.last().tags);
        assert(lists.contains(values[values.len() - 1].tags));
    }
}

/// No values, no counts.
proof fn lemma_counted_total_empty(lists: Seq<Seq<(Seq<char>, Seq<char>)>>, values: Seq<ValueView>)
    requires
        values.len() == 0,
    ensures
        counted_total(lists, values) == 0,
    decreases lists.len(),
{
    if lists.len() > 0 {
        lemma_counted_total_empty(lists.drop_first(), values);
    }
}

/// The counts of the groups are those of their tag lists.
proof fn lemma_group_total(groups: Seq<(Vec<Tag>, usize)>, values: Seq<ValueView>)
    requires
        forall|i: int|
            0 <= i < groups.len() ==> #[trigger] groups[i].1 == count_tagged(
                values,
                tags_view(groups[i].0@),
            ),
    ensures
        group_total(groups) == counted_total(
            groups.map_values(|g: (Vec<Tag>, usize)| tags_view(g.0@)),
            values,
        ),
    decreases groups.len(),
{
    let lists = groups.map_values(|g: (Vec<Tag>, usize)| tags_view(g.0@));
    if groups.len() > 0 {
        let rest = groups.drop_first();
        assert forall|i: int| 0 <= i < rest.len() implies #[trigger] rest[i].1 == count_tagged(
            values,
            tags_view(rest[i].0@),
        ) by {
            assert(rest[i] == groups[i + 1]);
        }
        lemma_group_total(rest, values);
        assert(lists.drop_first() =~= rest.map_values(|g: (Vec<Tag>, usize)| tags_view(g.0@)));
        assert(groups[0].1 == count_tagged(values, tags_view(groups[0].0@)));
    }
}

/// The tag counts of a series add up to its number of values: every value
/// is counted, in exactly one group.
pub proof fn lemma_tag_counts_total(groups: Seq<(Vec<Tag>, usize)>, values: Seq<ValueView>)
    requires
        counts_tags(groups, values),
    ensures
        group_total(groups) == values.len(),
{
    let lists = groups.map_values(|g: (Vec<Tag>, usize)| tags_view(g.0@));
    lemma_group_total(groups, values);
    assert forall|i: int, j: int| 0 <= i < lists.len() && 0 <= j < lists.len() && i != j implies lists[i]
        != lists[j] by {
        assert(tags_view(groups[i].0@) != tags_view(groups[j].0@));
    }
    assert forall|k: int| 0 <= k < values.len() implies lists.contains(#[trigger] values[k].tags) by {
        let i = choose|i: int|
            0 <= i < groups.len() && tags_view(groups[i].0@) == #[trigger] values[k].tags;
        assert(lists[i] == values[k].tags);
    }
    lemma_counted_total(lists, values);
}

/// Storing a message appends exactly one value to the series of its key,
/// stamped with the moment given, carrying the message's tags and number;
/// the values stored before stay as they were, and the count grows by one.
pub proof fn lemma_insert_appends_value(m: MetricsView, msg: MessageView, now: Timespec)
    ensures
        ({
            let after = spec_insert(m, msg, now);
            let before = if m.series.contains_key(msg.key) {
                m.series[msg.key].values
            } else {
                Seq::<ValueView>::empty()
            };
            let stored = after.series[msg.key].values;
            &&& after.series.contains_key(msg.key)
            &&& stored.len() == before.len() + 1
            &&& forall|i: int| 0 <= i < before.len() ==> stored[i] == before[i]
            &&& stored[before.len() as int].timestamp == now
            &&& stored[before.len() as int].tags == msg.tags
            &&& stored[before.len() as int].value == msg.value
            &&& after.counter == m.counter + 1
        }),
{
}

/// A series keeps the type of the message that made it: storing a message
/// under a key that has a series leaves its type as it was, and a message
/// under a new key makes a series of the message's type.
pub proof fn lemma_insert_keeps_type(m: MetricsView, msg: MessageView, now: Timespec)
    ensures
        m.series.contains_key(msg.key) ==> spec_insert(m, msg, now).series[msg.key].metric_type
            == m.series[msg.key].metric_type,
        !m.series.contains_key(msg.key) ==> spec_insert(m, msg, now).series[msg.key].metric_type
            == msg.metric_type,
        forall|k: Seq<char>|
            k != msg.key && #[trigger] m.series.contains_key(k) ==> spec_insert(
                m,
                msg,
                now,
            ).series[k] == m.series[k],
{
}

/// The same query with the number of points given as 1000.
pub open spec fn with_thousand_points(q: Query) -> Query {
    Query {
        range: q.range,
        aggregate: Aggregate { points: Some(1000u32), function: q.aggregate.function },
        key: q.key,
    }
}

/// Without a number of points, a query is answered as with 1000 points: at
/// every moment it can be answered exactly when the same query with 1000
/// points can, and its answer is the same.
pub proof fn lemma_default_points(m: MetricsView, q: Query, now: Timespec)
    requires
        q.aggregate.points is None,
    ensures
        query_defined(m, q, now) == query_defined(m, with_thousand_points(q), now),
        spec_query(m, q, now) == spec_query(m, with_thousand_points(q), now),
{
    assert(1000u32 as i32 == 1000i32) by (bit_vector);
}

/// A query over a stored series that can be answered at a moment is
/// answered there: as it is, or summed, never with nothing.
pub proof fn lemma_defined_query_is_answered(m: MetricsView, q: Query, now: Timespec)
    requires
        m.series.contains_key(q.key@),
        query_defined(m, q, now),
    ensures
        spec_query(m, q, now) is Some,
{
}

} // verus!
