//! The metrics store: one series of values per key, and the queries on it.
use vstd::prelude::*;
use crate::clock::{Timespec, clock_span, current_time, span_per_point};
use crate::metrics::aggregate::{
    is_bucket_value, sum_buckets, sum_defined, sum_is_defined, timestamps_in_range,
};
use crate::statsd::{MessageView, MetricType, StatsdMessage, Tag, copy_tags, same_tags, tags_view};

pub mod aggregate;
pub mod laws;
pub mod report;

pub use aggregate::{NoneAggregator, SumAggregator};

verus! {

/// One stored value: when it arrived, its tags and its number.
#[derive(Clone, Debug, PartialEq)]
pub struct Value {
    pub timestamp: Timespec,
    pub tags: Vec<Tag>,
    pub value: isize,
}

/// A stored value as numbers and text.
pub struct ValueView {
    pub timestamp: Timespec,
    pub tags: Seq<(Seq<char>, Seq<char>)>,
    pub value: isize,
}

impl View for Value {
    type V = ValueView;

    open spec fn view(&self) -> ValueView {
        ValueView { timestamp: self.timestamp, tags: tags_view(self.tags@), value: self.value }
    }
}

/// The stored values of a list, each as numbers and text.
pub open spec fn values_view(values: Seq<Value>) -> Seq<ValueView> {
    values.map_values(|v: Value| v@)
}

} // verus!

verus! {

/// The values stored under one key, with the type of metric they are.
#[derive(Clone, Debug, PartialEq)]
pub struct Serie {
    pub metric_type: MetricType,
    pub values: Vec<Value>,
}

/// A series as numbers and text.
pub struct SerieView {
    pub metric_type: MetricType,
    pub values: Seq<ValueView>,
}

impl View for Serie {
    type V = SerieView;

    open spec fn view(&self) -> SerieView {
        SerieView { metric_type: self.metric_type, values: values_view(self.values@) }
    }
}

/// The value a message is stored as when it arrives at `now`.
pub open spec fn arrived_value(msg: MessageView, now: Timespec) -> ValueView {
    ValueView { timestamp: now, tags: msg.tags, value: msg.value }
}

impl Serie {
    /// An empty series of the given type.
    pub fn new(metric_type: MetricType) -> (r: Serie)
        ensures
            r@.metric_type == metric_type,
            r@.values == Seq::<ValueView>::empty(),
    {
        let r = Serie { metric_type, values: Vec::new() };
        assert(r@.values =~= Seq::<ValueView>::empty());
        r
    }

    /// Stores the message as a value that arrived at `now`.
    pub fn insert_at(&mut self, msg: StatsdMessage, now: Timespec)
        ensures
            final(self)@.metric_type == old(self)@.metric_type,
            final(self)@.values == old(self)@.values.push(arrived_value(msg@, now)),
    {
        let ghost msg_view = msg@;
        self.values.push(Value { timestamp: now, tags: msg.tags, value: msg.value });
        assert(final(self)@.values =~= old(self)@.values.push(arrived_value(msg_view, now)));
    }

    /// Stores the message as a value stamped with the current time.
    pub fn insert(&mut self, msg: StatsdMessage)
        ensures
            final(self)@.metric_type == old(self)@.metric_type,
            exists|now: Timespec|
                now.is_normalized() && final(self)@.values == old(self)@.values.push(
                    #[trigger] arrived_value(msg@, now),
                ),
    {
        let now = crate::clock::current_time();
        self.insert_at(msg, now);
    }
}

} // verus!

verus! {

/// All series, by key, and how many messages were stored.
pub struct Metrics {
    series: Vec<(String, Serie)>,
    counter: usize,
}

/// The store as a map from key to series, and its message count.
pub struct MetricsView {
    pub series: Map<Seq<char>, SerieView>,
    pub counter: nat,
}

/// Entry `i` of the list is stored under key `k`.
pub open spec fn has_key_at(entries: Seq<(String, Serie)>, k: Seq<char>, i: int) -> bool {
    0 <= i < entries.len() && entries[i].0@ == k
}

/// No two entries of the list share a key.
pub open spec fn keys_unique(entries: Seq<(String, Serie)>) -> bool {
    forall|i: int, j: int|
        0 <= i < entries.len() && 0 <= j < entries.len() && i != j ==> entries[i].0@ != entries[j].0@
}

/// The map from key to series that a list of entries stands for.
pub open spec fn series_map(entries: Seq<(String, Serie)>) -> Map<Seq<char>, SerieView> {
    Map::new(
        |k: Seq<char>| exists|i: int| has_key_at(entries, k, i),
        |k: Seq<char>| entries[choose|i: int| has_key_at(entries, k, i)].1@,
    )
}

/// In a list without repeated keys, the map holds each entry under its key.
pub proof fn lemma_series_map_at(entries: Seq<(String, Serie)>, i: int)
    requires
        keys_unique(entries),
        0 <= i < entries.len(),
    ensures
        series_map(entries).contains_key(entries[i].0@),
        series_map(entries)[entries[i].0@] == entries[i].1@,
{
    assert(has_key_at(entries, entries[i].0@, i));
    let j = choose|j: int| has_key_at(entries, entries[i].0@, j);
    assert(j == i);
}

/// The number of values stored in all entries of the list.
pub open spec fn total_values(entries: Seq<(String, Serie)>) -> int
    decreases entries.len(),
{
    if entries.len() == 0 {
        0
    } else {
        total_values(entries.drop_last()) + entries.last().1.values@.len()
    }
}

/// Replacing an entry changes the total by the difference in its values.
pub proof fn lemma_total_values_update(entries: Seq<(String, Serie)>, i: int, e: (String, Serie))
    requires
        0 <= i < entries.len(),
    ensures
        total_values(entries.update(i, e)) == total_values(entries) - entries[i].1.values@.len()
            + e.1.values@.len(),
    decreases entries.len(),
{
    let updated = entries.update(i, e);
    if i < entries.len() - 1 {
        assert(updated.drop_last() =~= entries.drop_last().update(i, e));
        lemma_total_values_update(entries.drop_last(), i, e);
    } else {
        assert(updated.drop_last() =~= entries.drop_last());
    }
}

impl View for Metrics {
    type V = MetricsView;

    closed spec fn view(&self) -> MetricsView {
        MetricsView { series: series_map(self.series@), counter: self.counter as nat }
    }
}

/// The store after a message that arrived at `now` was stored: the value is
/// appended to the series of its key, made with the message's type if there
/// was none, and the message count grows by one.
pub open spec fn spec_insert(m: MetricsView, msg: MessageView, now: Timespec) -> MetricsView {
    let v = arrived_value(msg, now);
    let serie = if m.series.contains_key(msg.key) {
        SerieView {
            metric_type: m.series[msg.key].metric_type,
            values: m.series[msg.key].values.push(v),
        }
    } else {
        SerieView { metric_type: msg.metric_type, values: seq![v] }
    };
    MetricsView { series: m.series.insert(msg.key, serie), counter: m.counter + 1 }
}

impl Metrics {
    /// The store keeps one entry per key, and counts every value it stores.
    pub closed spec fn wf(&self) -> bool {
        &&& keys_unique(self.series@)
        &&& self.counter == total_values(self.series@)
    }

    /// An empty store.
    pub fn new() -> (r: Metrics)
        ensures
            r.wf(),
            r@.series == Map::<Seq<char>, SerieView>::empty(),
            r@.counter == 0,
    {
        let r = Metrics { series: Vec::new(), counter: 0 };
        assert(r@.series =~= Map::<Seq<char>, SerieView>::empty());
        r
    }

    /// Where the series of `key` stands, if there is one.
    fn find(&self, key: &String) -> (r: Option<usize>)
        requires
            self.wf(),
        ensures
            r matches Some(i) ==> has_key_at(self.series@, key@, i as int),
            r is None <==> !self@.series.contains_key(key@),
    {
        let mut i: usize = 0;
        while i < self.series.len()
            invariant
                i <= self.series@.len(),
                forall|j: int| 0 <= j < i ==> self.series@[j].0@ != key@,
            decreases self.series.len() - i,
        {
            if self.series[i].0 == *key {
                assert(has_key_at(self.series@, key@, i as int));
                return Some(i);
            }
            i = i + 1;
        }
        assert(!self@.series.contains_key(key@));
        None
    }

    /// Whether a series is stored under the key.
    pub fn has_series(&self, key: &String) -> (r: bool)
        requires
            self.wf(),
        ensures
            r == self@.series.contains_key(key@),
    {
        self.find(key).is_some()
    }

    /// How many messages were stored.
    pub fn message_count(&self) -> (r: usize)
        ensures
            r == self@.counter,
    {
        self.counter
    }

    /// Stores the message as a value that arrived at `now`.
    pub fn insert_at(&mut self, msg: StatsdMessage, now: Timespec)
        requires
            old(self).wf(),
            old(self)@.counter < usize::MAX,
        ensures
            final(self).wf(),
            final(self)@ == spec_insert(old(self)@, msg@, now),
    {
        let ghost msg_view = msg@;
        match self.find(&msg.key) {
            Some(i) => {
                proof {
                    lemma_series_map_at(self.series@, i as int);
                }
                self.series[i].1.insert_at(msg, now);
                proof {
                    assert(self.series@ =~= old(self).series@.update(i as int, self.series@[i as int]));
                    lemma_total_values_update(old(self).series@, i as int, self.series@[i as int]);
                    assert(values_view(self.series@[i as int].1.values@).len() == values_view(
                        old(self).series@[i as int].1.values@,
                    ).len() + 1);
                    assert(keys_unique(self.series@));
                    assert forall|k: Seq<char>| #[trigger]
                        series_map(self.series@).contains_key(k) == spec_insert(
                            old(self)@,
                            msg_view,
                            now,
                        ).series.contains_key(k) by {
                        if exists|j: int| has_key_at(old(self).series@, k, j) {
                            let j = choose|j: int| has_key_at(old(self).series@, k, j);
                            assert(has_key_at(self.series@, k, j));
                        }
                        if exists|j: int| has_key_at(self.series@, k, j) {
                            let j = choose|j: int| has_key_at(self.series@, k, j);
                            assert(has_key_at(old(self).series@, k, j));
                        }
                    }
                    assert forall|k: Seq<char>| #[trigger]
                        series_map(self.series@).contains_key(k) implies series_map(
                            self.series@,
                        )[k] == spec_insert(old(self)@, msg_view, now).series[k] by {
                        let j = choose|j: int| has_key_at(self.series@, k, j);
                        lemma_series_map_at(self.series@, j);
                        lemma_series_map_at(old(self).series@, j);
                    }
                    assert(self@.series =~= spec_insert(old(self)@, msg_view, now).series);
                }
            },
            None => {
                let key = msg.key.clone();
                assert forall|j: int| 0 <= j < old(self).series@.len() implies old(
                    self,
                ).series@[j].0@ != msg_view.key by {
                    if old(self).series@[j].0@ == msg_view.key {
                        assert(has_key_at(old(self).series@, msg_view.key, j));
                    }
                }
                let mut serie = Serie::new(msg.metric_type);
                serie.insert_at(msg, now);
                self.series.push((key, serie));
                proof {
                    assert(self.series@.drop_last() =~= old(self).series@);
                    assert(values_view(self.series@.last().1.values@).len() == 1);
                    let n = old(self).series@.len();
                    assert(keys_unique(self.series@));
                    assert forall|k: Seq<char>| #[trigger]
                        series_map(self.series@).contains_key(k) == spec_insert(
                            old(self)@,
                            msg_view,
                            now,
                        ).series.contains_key(k) by {
                        if exists|j: int| has_key_at(old(self).series@, k, j) {
                            let j = choose|j: int| has_key_at(old(self).series@, k, j);
                            assert(has_key_at(self.series@, k, j));
                        }
                        if k == msg_view.key {
                            assert(has_key_at(self.series@, k, n as int));
                        }
                        if exists|j: int| has_key_at(self.series@, k, j) {
                            let j = choose|j: int| has_key_at(self.series@, k, j);
                            if j < n {
                                assert(has_key_at(old(self).series@, k, j));
                            }
                        }
                    }
                    assert forall|k: Seq<char>| #[trigger]
                        series_map(self.series@).contains_key(k) implies series_map(
                            self.series@,
                        )[k] == spec_insert(old(self)@, msg_view, now).series[k] by {
                        let j = choose|j: int| has_key_at(self.series@, k, j);
                        lemma_series_map_at(self.series@, j);
                        if j < n {
                            lemma_series_map_at(old(self).series@, j);
                        } else {
                            assert(self.series@[j].1@.values =~= seq![arrived_value(msg_view, now)]);
                        }
                    }
                    assert(self@.series =~= spec_insert(old(self)@, msg_view, now).series);
                }
            },
        }
        self.counter = self.counter + 1;
    }

    /// Stores the message as a value stamped with the current time.
    pub fn insert(&mut self, msg: StatsdMessage)
        requires
            old(self).wf(),
            old(self)@.counter < usize::MAX,
        ensures
            final(self).wf(),
            exists|now: Timespec|
                now.is_normalized() && final(self)@ == #[trigger] spec_insert(old(self)@, msg@, now),
    {
        let now = crate::clock::current_time();
        self.insert_at(msg, now);
    }
}

} // verus!

verus! {

/// A request for the values of one series.
#[derive(Clone, Debug)]
pub struct Query {
    pub range: Range,
    pub aggregate: Aggregate,
    pub key: String,
}

/// The values asked for are those after `since` (whole seconds).
#[derive(Clone, Debug)]
pub struct Range {
    pub since: u32,
}

/// How the values are combined: as they are, or summed into `points`
/// buckets (1000 when not given) between `since` and now.
#[derive(Clone, Debug)]
pub struct Aggregate {
    pub points: Option<u32>,
    pub function: AggregateFunction,
}

/// How the values of a series are combined: summed per bucket, or taken as
/// they are (`Raw`; named `none` where queries are written as text).
#[derive(Clone, Copy, Debug, PartialEq, Eq, Structural)]
pub enum AggregateFunction {
    Sum,
    Raw,
}

/// The answer to a query: the timestamps (whole seconds) and, at the same
/// positions, the values.
#[derive(Clone, Debug, PartialEq)]
pub struct QueryResult {
    pub timestamps: Vec<i64>,
    pub values: Vec<isize>,
}

impl Default for Range {
    /// From the epoch on.
    fn default() -> (r: Range)
        ensures
            r.since == 0,
    {
        Range { since: 0 }
    }
}

impl Default for Aggregate {
    /// The values as they are, with no number of points given.
    fn default() -> (r: Aggregate)
        ensures
            r.points is None,
            r.function == AggregateFunction::Raw,
    {
        Aggregate { points: None, function: AggregateFunction::Raw }
    }
}

/// A stored value as a point of an answer.
pub open spec fn value_point(v: ValueView) -> (i64, isize) {
    (v.timestamp.sec, v.value)
}

/// A bucket (start in nanoseconds, sum) as a point of an answer.
pub open spec fn bucket_point(b: (int, int)) -> (i64, isize) {
    ((b.0 / 1_000_000_000) as i64, b.1 as isize)
}

/// Points strictly after `since`.
pub open spec fn after(since: i64) -> spec_fn((i64, isize)) -> bool {
    |p: (i64, isize)| p.0 > since
}

/// The number of buckets a query divides its range into, as the `i32` the
/// clock arithmetic takes.
pub open spec fn query_points(q: Query) -> i32 {
    match q.aggregate.points {
        Some(p) => p as i32,
        None => 1000i32,
    }
}

/// The length of a bucket of a sum query asked at `now`, in nanoseconds.
pub open spec fn query_span(q: Query, now: Timespec) -> Option<i64> {
    clock_span(now.sec, now.nsec, q.range.since as i64, 0, query_points(q))
}

/// A query asked at `now` can be answered: a sum over an existing series
/// needs a number of points other than zero, a span between `since` and now
/// that the clock arithmetic can take and that fits an `i64` once divided,
/// timestamps in the clock range, and a summation that ends without overflow.
pub open spec fn query_defined(m: MetricsView, q: Query, now: Timespec) -> bool {
    m.series.contains_key(q.key@) && q.aggregate.function == AggregateFunction::Sum ==> {
        let values = m.series[q.key@].values;
        let since = q.range.since as i64;
        &&& now.is_normalized()
        &&& q.aggregate.points != Some(0u32)
        &&& -(i64::MAX / 1000) <= now.sec - since <= i64::MAX / 1000
        &&& query_span(q, now) is Some
        &&& timestamps_in_range(values)
        &&& sum_defined(values, query_span(q, now)->0 as int, since * 1_000_000_000, None)
    }
}

/// The points that answer a query asked at `now`, or `None` for an unknown
/// key: the values after `since`, or the sums of the buckets that start
/// after `since`, the first bucket starting at `since`.
pub open spec fn spec_query(m: MetricsView, q: Query, now: Timespec) -> Option<Seq<(i64, isize)>> {
    if !m.series.contains_key(q.key@) {
        None
    } else {
        let values = m.series[q.key@].values;
        let since = q.range.since as i64;
        match q.aggregate.function {
            AggregateFunction::Raw => Some(
                values.map_values(|v: ValueView| value_point(v)).filter(after(since)),
            ),
            AggregateFunction::Sum => Some(
                sum_buckets(
                    values,
                    query_span(q, now)->0 as int,
                    since * 1_000_000_000,
                    None,
                ).map_values(|b: (int, int)| bucket_point(b)).filter(after(since)),
            ),
        }
    }
}

/// The answer holds exactly these points, in this order.
pub open spec fn holds_points(r: QueryResult, points: Seq<(i64, isize)>) -> bool {
    &&& r.timestamps@ == points.map_values(|p: (i64, isize)| p.0)
    &&& r.values@ == points.map_values(|p: (i64, isize)| p.1)
}

/// The answer is the expected one.
pub open spec fn answers(r: Option<QueryResult>, expected: Option<Seq<(i64, isize)>>) -> bool {
    match (r, expected) {
        (Some(r), Some(points)) => holds_points(r, points),
        (None, None) => true,
        _ => false,
    }
}

/// Keeping the points after `since` of a list with one more point.
pub proof fn lemma_filter_push(s: Seq<(i64, isize)>, x: (i64, isize), since: i64)
    ensures
        s.push(x).filter(after(since)) == if x.0 > since {
            s.filter(after(since)).push(x)
        } else {
            s.filter(after(since))
        },
{
    reveal(Seq::filter);
    assert(s.push(x).drop_last() =~= s);
}

/// The values of the list that arrived after `since`, as points.
fn values_after(values: &Vec<Value>, since: i64) -> (r: QueryResult)
    ensures
        holds_points(
            r,
            values_view(values@).map_values(|v: ValueView| value_point(v)).filter(after(since)),
        ),
{
    let ghost points = values_view(values@).map_values(|v: ValueView| value_point(v));
    let mut timestamps: Vec<i64> = Vec::new();
    let mut vals: Vec<isize> = Vec::new();
    let mut i: usize = 0;
    proof {
        reveal(Seq::filter);
        assert(points.take(0).filter(after(since)) =~= Seq::<(i64, isize)>::empty());
        assert(timestamps@ =~= Seq::<(i64, isize)>::empty().map_values(|p: (i64, isize)| p.0));
        assert(vals@ =~= Seq::<(i64, isize)>::empty().map_values(|p: (i64, isize)| p.1));
    }
    while i < values.len()
        invariant
            i <= values@.len(),
            points == values_view(values@).map_values(|v: ValueView| value_point(v)),
            holds_points(
                QueryResult { timestamps, values: vals },
                points.take(i as int).filter(after(since)),
            ),
        decreases values.len() - i,
    {
        let ghost before = points.take(i as int).filter(after(since));
        proof {
            assert(points.take(i + 1) =~= points.take(i as int).push(points[i as int]));
            lemma_filter_push(points.take(i as int), points[i as int], since);
        }
        let sec = values[i].timestamp.sec;
        if sec > since {
            timestamps.push(sec);
            vals.push(values[i].value);
            assert(timestamps@ =~= before.push(points[i as int]).map_values(
                |p: (i64, isize)| p.0,
            ));
            assert(vals@ =~= before.push(points[i as int]).map_values(|p: (i64, isize)| p.1));
        }
        i = i + 1;
    }
    assert(points.take(values@.len() as int) =~= points);
    QueryResult { timestamps, values: vals }
}

/// The sums of the buckets that start after `since`, as points.
fn sums_after(values: &Vec<Value>, span: i64, start: Timespec, since: i64) -> (r: QueryResult)
    requires
        start.is_normalized(),
        crate::clock::in_clock_range(start.sec),
        timestamps_in_range(values_view(values@)),
        sum_defined(values_view(values@), span as int, start.total_nanos(), None),
    ensures
        holds_points(
            r,
            sum_buckets(values_view(values@), span as int, start.total_nanos(), None).map_values(
                |b: (int, int)| bucket_point(b),
            ).filter(after(since)),
        ),
{
    let mut agg = SumAggregator::from(values, span, start);
    let ghost expected = agg.pending().map_values(|b: (int, int)| bucket_point(b)).filter(
        after(since),
    );
    let ghost mut collected: Seq<(i64, isize)> = Seq::empty();
    let mut timestamps: Vec<i64> = Vec::new();
    let mut vals: Vec<isize> = Vec::new();
    proof {
        assert(timestamps@ =~= collected.map_values(|p: (i64, isize)| p.0));
        assert(vals@ =~= collected.map_values(|p: (i64, isize)| p.1));
        assert(collected + agg.pending().map_values(|b: (int, int)| bucket_point(b)).filter(
            after(since),
        ) =~= expected);
    }
    loop
        invariant
            agg.wf(),
            holds_points(QueryResult { timestamps, values: vals }, collected),
            collected + agg.pending().map_values(|b: (int, int)| bucket_point(b)).filter(
                after(since),
            ) == expected,
        ensures
            agg.pending().len() == 0,
        decreases agg.pending().len(),
    {
        let ghost pending = agg.pending();
        match agg.next() {
            None => {
                break;
            },
            Some(v) => {
                let ghost b = pending[0];
                let ghost p = bucket_point(b);
                proof {
                    let rest = pending.drop_first().map_values(|b: (int, int)| bucket_point(b));
                    assert(pending.map_values(|b: (int, int)| bucket_point(b)) =~= seq![p] + rest);
                    Seq::filter_distributes_over_add(seq![p], rest, after(since));
                    lemma_filter_push(Seq::empty(), p, since);
                    assert(seq![p] =~= Seq::<(i64, isize)>::empty().push(p));
                    reveal(Seq::filter);
                    assert(Seq::<(i64, isize)>::empty().filter(after(since)) =~= Seq::<
                        (i64, isize),
                    >::empty());
                }
                let sec = v.timestamp.sec;
                if sec > since {
                    timestamps.push(sec);
                    vals.push(v.value);
                    proof {
                        assert(timestamps@ =~= collected.push(p).map_values(|q: (i64, isize)| q.0));
                        assert(vals@ =~= collected.push(p).map_values(|q: (i64, isize)| q.1));
                        assert(collected.push(p) + agg.pending().map_values(
                            |b: (int, int)| bucket_point(b),
                        ).filter(after(since)) =~= expected);
                        collected = collected.push(p);
                    }
                } else {
                    proof {
                        assert(collected + agg.pending().map_values(
                            |b: (int, int)| bucket_point(b),
                        ).filter(after(since)) =~= expected);
                    }
                }
            },
        }
    }
    proof {
        reveal(Seq::filter);
        assert(agg.pending().map_values(|b: (int, int)| bucket_point(b)).filter(after(since))
            =~= Seq::<(i64, isize)>::empty());
        assert(collected =~= expected);
    }
    QueryResult { timestamps, values: vals }
}

} // verus!

verus! {

/// Whether every timestamp of the list lies in the clock range.
fn all_in_clock_range(values: &Vec<Value>) -> (r: bool)
    ensures
        r == timestamps_in_range(values_view(values@)),
{
    let mut j: usize = 0;
    while j < values.len()
        invariant
            j <= values@.len(),
            forall|k: int|
                0 <= k < j ==> crate::clock::in_clock_range(
                    #[trigger] values_view(values@)[k].timestamp.sec,
                ),
        decreases values.len() - j,
    {
        let sec = values[j].timestamp.sec;
        if sec < -crate::clock::MAX_CLOCK_SEC || sec > crate::clock::MAX_CLOCK_SEC {
            assert(!crate::clock::in_clock_range(values_view(values@)[j as int].timestamp.sec));
            return false;
        }
        j = j + 1;
    }
    true
}

impl Metrics {
    /// Answers the query as asked at `now`; `now` is read only by sums.
    pub fn query_at(&self, q: &Query, now: Timespec) -> (r: Option<QueryResult>)
        requires
            self.wf(),
            query_defined(self@, *q, now),
        ensures
            answers(r, spec_query(self@, *q, now)),
    {
        match self.find(&q.key) {
            None => None,
            Some(i) => {
                proof {
                    lemma_series_map_at(self.series@, i as int);
                }
                let serie = &self.series[i].1;
                let since = q.range.since as i64;
                match q.aggregate.function {
                    AggregateFunction::Raw => Some(values_after(&serie.values, since)),
                    AggregateFunction::Sum => {
                        let start = Timespec { sec: since, nsec: 0 };
                        let points: i32 = match q.aggregate.points {
                            Some(p) => {
                                assert(p != 0 ==> p as i32 != 0) by (bit_vector);
                                p as i32
                            },
                            None => 1000,
                        };
                        let span = span_per_point(now, start, points).unwrap();
                        Some(sums_after(&serie.values, span, start, since))
                    },
                }
            },
        }
    }

    /// Whether the query can be answered at `now` (see `query_defined`).
    pub fn query_is_defined(&self, q: &Query, now: Timespec) -> (r: bool)
        requires
            self.wf(),
            now.is_normalized(),
        ensures
            r == query_defined(self@, *q, now),
    {
        match q.aggregate.function {
            AggregateFunction::Raw => {
                return true;
            },
            AggregateFunction::Sum => {},
        }
        let i = match self.find(&q.key) {
            None => {
                return true;
            },
            Some(i) => i,
        };
        proof {
            lemma_series_map_at(self.series@, i as int);
        }
        let values = &self.series[i].1.values;
        let since = q.range.since as i64;
        let points: i32 = match q.aggregate.points {
            Some(p) => {
                if p == 0 {
                    return false;
                }
                assert(p != 0 ==> p as i32 != 0) by (bit_vector);
                p as i32
            },
            None => 1000,
        };
        let bound: i64 = i64::MAX / 1000;
        if now.sec < since - bound || now.sec > since + bound {
            return false;
        }
        let start = Timespec { sec: since, nsec: 0 };
        let span = match span_per_point(now, start, points) {
            None => {
                return false;
            },
            Some(s) => s,
        };
        if !all_in_clock_range(values) {
            return false;
        }
        sum_is_defined(values, span, start)
    }

    /// Answers the query, reading the clock for a sum. `None` when the key is
    /// unknown, or when the sum cannot be computed at the time read (see
    /// `query_defined`).
    pub fn query(&self, q: &Query) -> (r: Option<QueryResult>)
        requires
            self.wf(),
            self@.series.contains_key(q.key@) && q.aggregate.function == AggregateFunction::Sum
                ==> q.aggregate.points != Some(0u32),
        ensures
            !self@.series.contains_key(q.key@) ==> r is None,
            q.aggregate.function == AggregateFunction::Raw ==> answers(
                r,
                spec_query(self@, *q, Timespec { sec: 0, nsec: 0 }),
            ),
            q.aggregate.function == AggregateFunction::Sum && r is Some ==> exists|now: Timespec|
                #[trigger] query_defined(self@, *q, now) && now.is_normalized() && answers(
                    r,
                    spec_query(self@, *q, now),
                ),
            q.aggregate.function == AggregateFunction::Sum && self@.series.contains_key(q.key@)
                && r is None ==> exists|now: Timespec|
                now.is_normalized() && !#[trigger] query_defined(self@, *q, now),
    {
        match q.aggregate.function {
            AggregateFunction::Raw => {
                return self.query_at(q, Timespec { sec: 0, nsec: 0 });
            },
            AggregateFunction::Sum => {},
        }
        let now = current_time();
        if self.query_is_defined(q, now) {
            self.query_at(q, now)
        } else {
            None
        }
    }
}

} // verus!

verus! {

/// A summary of the store: the message count and, per series, its type and
/// how many values carry each distinct list of tags.
#[derive(Clone, Debug, PartialEq)]
pub struct StateResult {
    pub counter: usize,
    pub series: Vec<(String, (MetricType, Vec<(Vec<Tag>, usize)>))>,
}

/// How many of the values carry exactly these tags.
pub open spec fn count_tagged(values: Seq<ValueView>, tags: Seq<(Seq<char>, Seq<char>)>) -> nat
    decreases values.len(),
{
    if values.len() == 0 {
        0
    } else {
        count_tagged(values.drop_last(), tags) + if values.last().tags == tags {
            1nat
        } else {
            0nat
        }
    }
}

/// The groups hold each distinct list of tags of the values once, with the
/// number of values that carry it.
pub open spec fn counts_tags(groups: Seq<(Vec<Tag>, usize)>, values: Seq<ValueView>) -> bool {
    &&& forall|i: int, j: int|
        0 <= i < groups.len() && 0 <= j < groups.len() && i != j ==> tags_view(groups[i].0@)
            != tags_view(groups[j].0@)
    &&& forall|i: int|
        0 <= i < groups.len() ==> #[trigger] groups[i].1 == count_tagged(
            values,
            tags_view(groups[i].0@),
        ) && groups[i].1 > 0
    &&& forall|k: int|
        0 <= k < values.len() ==> exists|i: int|
            0 <= i < groups.len() && tags_view(groups[i].0@) == #[trigger] values[k].tags
}

/// The summary describes the store: same message count, one entry per
/// series, each with the series' type and its tag counts.
pub open spec fn describes(r: StateResult, m: MetricsView) -> bool {
    &&& r.counter == m.counter
    &&& forall|i: int, j: int|
        0 <= i < r.series@.len() && 0 <= j < r.series@.len() && i != j ==> r.series@[i].0@
            != r.series@[j].0@
    &&& forall|i: int|
        0 <= i < r.series@.len() ==> {
            let k = #[trigger] r.series@[i].0@;
            &&& m.series.contains_key(k)
            &&& r.series@[i].1.0 == m.series[k].metric_type
            &&& counts_tags(r.series@[i].1.1@, m.series[k].values)
        }
    &&& forall|k: Seq<char>|
        #[trigger] m.series.contains_key(k) ==> exists|i: int|
            0 <= i < r.series@.len() && r.series@[i].0@ == k
}

/// Adding a value to the end adds one to the count of its tags.
pub proof fn lemma_count_push(values: Seq<ValueView>, v: ValueView, tags: Seq<(Seq<char>, Seq<char>)>)
    ensures
        count_tagged(values.push(v), tags) == count_tagged(values, tags) + if v.tags == tags {
            1nat
        } else {
            0nat
        },
{
    assert(values.push(v).drop_last() =~= values);
}

/// Where the group with these tags stands, if there is one.
fn find_group(groups: &Vec<(Vec<Tag>, usize)>, tags: &Vec<Tag>) -> (r: Option<usize>)
    ensures
        r matches Some(g) ==> g < groups@.len() && tags_view(groups@[g as int].0@) == tags_view(
            tags@,
        ),
        r is None ==> forall|g: int|
            0 <= g < groups@.len() ==> tags_view(groups@[g].0@) != tags_view(tags@),
{
    let mut g: usize = 0;
    while g < groups.len()
        invariant
            g <= groups@.len(),
            forall|h: int| 0 <= h < g ==> tags_view(groups@[h].0@) != tags_view(tags@),
        decreases groups.len() - g,
    {
        if same_tags(&groups[g].0, tags) {
            return Some(g);
        }
        g = g + 1;
    }
    None
}

/// The distinct lists of tags of the values, each with the number of values
/// that carry it, in the order they first occur.
fn count_tags(values: &Vec<Value>) -> (groups: Vec<(Vec<Tag>, usize)>)
    ensures
        counts_tags(groups@, values_view(values@)),
{
    let ghost all = values_view(values@);
    let mut groups: Vec<(Vec<Tag>, usize)> = Vec::new();
    let mut j: usize = 0;
    while j < values.len()
        invariant
            j <= values@.len(),
            all == values_view(values@),
            counts_tags(groups@, all.take(j as int)),
            forall|i: int| 0 <= i < groups@.len() ==> #[trigger] groups@[i].1 <= j,
        decreases values.len() - j,
    {
        let ghost prev = groups@;
        proof {
            assert(all.take(j + 1) =~= all.take(j as int).push(all[j as int]));
            assert forall|t: Seq<(Seq<char>, Seq<char>)>|
                #[trigger] count_tagged(all.take(j + 1), t) == count_tagged(all.take(j as int), t)
                    + if all[j as int].tags == t {
                    1nat
                } else {
                    0nat
                } by {
                lemma_count_push(all.take(j as int), all[j as int], t);
            }
        }
        match find_group(&groups, &values[j].tags) {
            Some(g) => {
                let c = groups[g].1;
                groups[g].1 = c + 1;
                proof {
                    assert forall|i: int| 0 <= i < groups@.len() implies #[trigger] groups@[i].1
                        == count_tagged(all.take(j + 1), tags_view(groups@[i].0@)) && groups@[i].1
                        > 0 by {
                        assert(count_tagged(all.take(j + 1), tags_view(groups@[i].0@))
                            == count_tagged(all.take(j as int), tags_view(groups@[i].0@)) + if all[j as int].tags
                            == tags_view(groups@[i].0@) {
                            1nat
                        } else {
                            0nat
                        });
                        if i != g {
                            assert(tags_view(prev[i].0@) != tags_view(prev[g as int].0@));
                        }
                    }
                    assert forall|k: int| 0 <= k < all.take(j + 1).len() implies exists|i: int|
                        0 <= i < groups@.len() && tags_view(groups@[i].0@) == #[trigger] all.take(
                            j + 1,
                        )[k].tags by {
                        if k < j {
                            assert(all.take(j + 1)[k] == all.take(j as int)[k]);
                            let h = choose|h: int|
                                0 <= h < prev.len() && tags_view(prev[h].0@) == #[trigger] all.take(
                                    j as int,
                                )[k].tags;
                            assert(groups@[h].0 == prev[h].0);
                        } else {
                            assert(tags_view(groups@[g as int].0@) == all.take(j + 1)[k].tags);
                        }
                    }
                }
            },
            None => {
                let tags = copy_tags(&values[j].tags);
                groups.push((tags, 1));
                proof {
                    let n = prev.len() as int;
                    assert forall|i: int| 0 <= i < groups@.len() implies #[trigger] groups@[i].1
                        == count_tagged(all.take(j + 1), tags_view(groups@[i].0@)) && groups@[i].1
                        > 0 by {
                        assert(count_tagged(all.take(j + 1), tags_view(groups@[i].0@))
                            == count_tagged(all.take(j as int), tags_view(groups@[i].0@)) + if all[j as int].tags
                            == tags_view(groups@[i].0@) {
                            1nat
                        } else {
                            0nat
                        });
                        if i == n {
                            assert forall|k: int| 0 <= k < all.take(j as int).len() implies all.take(
                                j as int,
                            )[k].tags != all[j as int].tags by {
                                if all.take(j as int)[k].tags == all[j as int].tags {
                                    let h = choose|h: int|
                                        0 <= h < prev.len() && tags_view(prev[h].0@) == #[trigger] all.take(
                                            j as int,
                                        )[k].tags;
                                }
                            }
                            lemma_count_absent(all.take(j as int), all[j as int].tags);
                        }
                    }
                    assert forall|k: int| 0 <= k < all.take(j + 1).len() implies exists|i: int|
                        0 <= i < groups@.len() && tags_view(groups@[i].0@) == #[trigger] all.take(
                            j + 1,
                        )[k].tags by {
                        if k < j {
                            assert(all.take(j + 1)[k] == all.take(j as int)[k]);
                            let h = choose|h: int|
                                0 <= h < prev.len() && tags_view(prev[h].0@) == #[trigger] all.take(
                                    j as int,
                                )[k].tags;
                            assert(groups@[h] == prev[h]);
                        } else {
                            assert(tags_view(groups@[n].0@) == all.take(j + 1)[k].tags);
                        }
                    }
                }
            },
        }
        j = j + 1;
    }
    assert(all.take(values@.len() as int) =~= all);
    groups
}

/// Tags that no value carries are counted zero times.
pub proof fn lemma_count_absent(values: Seq<ValueView>, tags: Seq<(Seq<char>, Seq<char>)>)
    requires
        forall|k: int| 0 <= k < values.len() ==> values[k].tags != tags,
    ensures
        count_tagged(values, tags) == 0,
    decreases values.len(),
{
    if values.len() > 0 {
        lemma_count_absent(values.drop_last(), tags);
    }
}

/// An entry of the summary sums up an entry of the store.
pub open spec fn summarizes(
    entry: (String, (MetricType, Vec<(Vec<Tag>, usize)>)),
    stored: (String, Serie),
) -> bool {
    &&& entry.0@ == stored.0@
    &&& entry.1.0 == stored.1.metric_type
    &&& counts_tags(entry.1.1@, stored.1@.values)
}

impl Metrics {
    /// A summary of the store: the message count and, per series, its type
    /// and how many values carry each distinct list of tags.
    pub fn state(&self) -> (r: StateResult)
        requires
            self.wf(),
        ensures
            describes(r, self@),
            r.counter == crate::metrics::laws::summary_total(r.series@),
    {
        let mut series: Vec<(String, (MetricType, Vec<(Vec<Tag>, usize)>))> = Vec::new();
        let mut i: usize = 0;
        while i < self.series.len()
            invariant
                i <= self.series@.len(),
                series@.len() == i,
                forall|j: int| 0 <= j < i ==> #[trigger] summarizes(series@[j], self.series@[j]),
                crate::metrics::laws::summary_total(series@) == total_values(
                    self.series@.take(i as int),
                ),
            decreases self.series.len() - i,
        {
            let groups = count_tags(&self.series[i].1.values);
            proof {
                crate::metrics::laws::lemma_tag_counts_total(
                    groups@,
                    values_view(self.series@[i as int].1.values@),
                );
                assert(self.series@.take(i + 1).drop_last() =~= self.series@.take(i as int));
            }
            let ghost prev = series@;
            series.push((self.series[i].0.clone(), (self.series[i].1.metric_type, groups)));
            proof {
                assert forall|j: int| 0 <= j < i + 1 implies #[trigger] summarizes(
                    series@[j],
                    self.series@[j],
                ) by {
                    if j < i {
                        assert(series@[j] == prev[j]);
                    }
                }
                assert(series@.drop_last() =~= prev);
            }
            i = i + 1;
        }
        let r = StateResult { counter: self.counter, series };
        proof {
            assert(self.series@.take(self.series@.len() as int) =~= self.series@);
            assert forall|a: int, b: int|
                0 <= a < r.series@.len() && 0 <= b < r.series@.len() && a != b implies r.series@[a].0@
                != r.series@[b].0@ by {
                assert(summarizes(r.series@[a], self.series@[a]));
                assert(summarizes(r.series@[b], self.series@[b]));
            }
            assert forall|j: int| 0 <= j < r.series@.len() implies {
                let k = #[trigger] r.series@[j].0@;
                &&& self@.series.contains_key(k)
                &&& r.series@[j].1.0 == self@.series[k].metric_type
                &&& counts_tags(r.series@[j].1.1@, self@.series[k].values)
            } by {
                assert(summarizes(r.series@[j], self.series@[j]));
                lemma_series_map_at(self.series@, j);
            }
            assert forall|k: Seq<char>| #[trigger] self@.series.contains_key(k) implies exists|j: int|
                0 <= j < r.series@.len() && r.series@[j].0@ == k by {
                let j = choose|j: int| has_key_at(self.series@, k, j);
                assert(summarizes(r.series@[j], self.series@[j]));
                assert(r.series@[j].0@ == k);
            }
        }
        r
    }
}

} // verus!
