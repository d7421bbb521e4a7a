//! Walking the values of a series: as they are, or summed per time bucket.
use vstd::prelude::*;
use crate::clock::{
    Timespec, advance, nanos_before, in_clock_range, timespec_from_nanos, MAX_CLOCK_SEC,
    lemma_from_nanos, lemma_nanos_before_bound, lemma_normalized_from_nanos, lemma_before_threshold,
    threshold,
};
use crate::metrics::{Value, ValueView, values_view};

verus! {

/// Seconds inside which the start of a sum bucket stays: the clock range,
/// plus room for one more span past its end.
pub open spec fn in_grid_range(sec: i64) -> bool {
    -MAX_CLOCK_SEC <= sec <= MAX_CLOCK_SEC + 20_000_000_000
}

/// The first point of the grid `start + k * span` (k >= 0), stepping from
/// `start`, that does not come before `current`.
pub open spec fn next_grid_nanos(start: int, span: int, current: Timespec) -> int
    decreases (if span > 0 && nanos_before(start, current) {
        (current.sec + 1) * 1_000_000_000 - start
    } else {
        0
    }),
{
    if span > 0 && nanos_before(start, current) {
        proof {
            lemma_nanos_before_bound(start, current);
            lemma_nanos_before_bound(start + span, current);
        }
        next_grid_nanos(start + span, span, current)
    } else {
        start
    }
}

/// The buckets that summing `values` gives, each as its start (nanoseconds)
/// and its sum. A bucket starts at `start` and ends at `start + span`; `acc`
/// is the sum of the bucket being filled, if a value went into it. A value
/// after the end of the bucket closes it, and the next bucket starts at the
/// first grid point from `start` that is not before that value.
pub open spec fn sum_buckets(values: Seq<ValueView>, span: int, start: int, acc: Option<int>) -> Seq<
    (int, int),
>
    decreases values.len(),
{
    if values.len() == 0 {
        match acc {
            Some(a) => seq![(start, a)],
            None => seq![],
        }
    } else {
        let v = values[0];
        let rest = values.drop_first();
        let crosses = nanos_before(start + span, v.timestamp);
        let new_start = next_grid_nanos(start, span, v.timestamp);
        match acc {
            None => if crosses {
                sum_buckets(rest, span, new_start, Some(v.value as int))
            } else {
                sum_buckets(rest, span, start, Some(v.value as int))
            },
            Some(a) => if crosses {
                seq![(start, a)] + sum_buckets(rest, span, new_start, Some(v.value as int))
            } else {
                sum_buckets(rest, span, start, Some(a + v.value))
            },
        }
    }
}

/// Summing `values` never steps a bucket forward with a span that is not
/// positive (which would never end), and no running sum leaves `isize`.
pub open spec fn sum_defined(values: Seq<ValueView>, span: int, start: int, acc: Option<int>) -> bool
    decreases values.len(),
{
    if values.len() == 0 {
        true
    } else {
        let v = values[0];
        let rest = values.drop_first();
        let crosses = nanos_before(start + span, v.timestamp);
        let new_start = next_grid_nanos(start, span, v.timestamp);
        &&& crosses ==> span > 0
        &&& match acc {
            None => if crosses {
                sum_defined(rest, span, new_start, Some(v.value as int))
            } else {
                sum_defined(rest, span, start, Some(v.value as int))
            },
            Some(a) => if crosses {
                sum_defined(rest, span, new_start, Some(v.value as int))
            } else {
                &&& isize::MIN <= a + v.value <= isize::MAX
                &&& sum_defined(rest, span, start, Some(a + v.value))
            },
        }
    }
}

/// Every timestamp of `values` lies in the clock range.
pub open spec fn timestamps_in_range(values: Seq<ValueView>) -> bool {
    forall|i: int| 0 <= i < values.len() ==> in_clock_range(#[trigger] values[i].timestamp.sec)
}

/// The value a bucket is handed out as: stamped with the bucket's start,
/// without tags, holding the bucket's sum.
pub open spec fn is_bucket_value(v: Value, bucket: (int, int)) -> bool {
    &&& v.timestamp == timespec_from_nanos(bucket.0)
    &&& v.tags@.len() == 0
    &&& v.value == bucket.1
}

/// Steps `start` by `span` until it is no longer before `current`.
pub fn next_timestamp(start: Timespec, span: i64, current: Timespec) -> (r: Timespec)
    requires
        start.is_normalized(),
        in_grid_range(start.sec),
        in_clock_range(current.sec),
        span > 0,
    ensures
        r.is_normalized(),
        r.total_nanos() == next_grid_nanos(start.total_nanos(), span as int, current),
        in_grid_range(r.sec),
        start.total_nanos() <= r.total_nanos(),
{
    let mut s = start;
    while s.before(&current)
        invariant
            s.is_normalized(),
            in_clock_range(current.sec),
            span > 0,
            in_grid_range(start.sec),
            next_grid_nanos(s.total_nanos(), span as int, current) == next_grid_nanos(
                start.total_nanos(),
                span as int,
                current,
            ),
            start.total_nanos() <= s.total_nanos(),
            s.total_nanos() == start.total_nanos() || s.total_nanos() < (current.sec + 1)
                * 1_000_000_000 + span,
            start.sec <= s.sec,
            s.sec <= start.sec || s.sec <= current.sec + 10_000_000_001,
        decreases (if s.spec_before(current) {
            (current.sec + 1) * 1_000_000_000 - s.total_nanos()
        } else {
            0
        }),
    {
        proof {
            lemma_normalized_from_nanos(s);
            lemma_nanos_before_bound(s.total_nanos(), current);
        }
        let ghost prev = s;
        s = advance(s, span);
        proof {
            lemma_from_nanos(prev.total_nanos() + span);
            lemma_normalized_from_nanos(s);
            lemma_nanos_before_bound(s.total_nanos(), current);
        }
    }
    proof {
        lemma_normalized_from_nanos(s);
    }
    s
}

} // verus!

verus! {

/// A number read as a mathematical integer, if there is one.
pub open spec fn opt_int(v: Option<isize>) -> Option<int> {
    match v {
        Some(x) => Some(x as int),
        None => None,
    }
}

/// Hands out the values of a series one by one, as they are.
pub struct NoneAggregator {
    values: Vec<Value>,
}

impl NoneAggregator {
    /// The values still to be handed out.
    pub closed spec fn remaining(&self) -> Seq<Value> {
        self.values@
    }

    /// An aggregator over `values`.
    pub fn from(values: Vec<Value>) -> (r: NoneAggregator)
        ensures
            r.remaining() == values@,
    {
        NoneAggregator { values }
    }

    /// The next value, or `None` once all were handed out.
    pub fn next(&mut self) -> (r: Option<Value>)
        ensures
            old(self).remaining().len() == 0 ==> r is None && final(self).remaining().len() == 0,
            old(self).remaining().len() > 0 ==> r == Some(old(self).remaining()[0])
                && final(self).remaining() == old(self).remaining().drop_first(),
    {
        if self.values.len() == 0 {
            None
        } else {
            let v = self.values.remove(0);
            assert(self.values@ =~= old(self).values@.drop_first());
            Some(v)
        }
    }
}

/// Sums the values of a series per time bucket and hands out one value per
/// bucket: stamped with the bucket's start, holding its sum.
pub struct SumAggregator<'a> {
    values: &'a Vec<Value>,
    pos: usize,
    span: i64,
    start: Timespec,
    next: Timespec,
    value: Option<isize>,
}

impl<'a> SumAggregator<'a> {
    /// The values not read yet.
    pub closed spec fn remaining(&self) -> Seq<ValueView> {
        values_view(self.values@).subrange(self.pos as int, self.values@.len() as int)
    }

    /// The buckets still to be handed out, as start (nanoseconds) and sum.
    pub closed spec fn pending(&self) -> Seq<(int, int)> {
        sum_buckets(self.remaining(), self.span as int, self.start.total_nanos(), opt_int(self.value))
    }

    /// The state the aggregator keeps between two calls.
    pub closed spec fn wf(&self) -> bool {
        &&& self.pos <= self.values@.len()
        &&& self.start.is_normalized()
        &&& in_grid_range(self.start.sec)
        &&& self.next.is_normalized()
        &&& self.next.total_nanos() == self.start.total_nanos() + self.span
        &&& timestamps_in_range(self.remaining())
        &&& sum_defined(self.remaining(), self.span as int, self.start.total_nanos(), opt_int(self.value))
    }

    /// An aggregator over `values` whose first bucket starts at `start` and
    /// whose buckets last `span` nanoseconds.
    pub fn from(values: &'a Vec<Value>, span: i64, start: Timespec) -> (r: SumAggregator<'a>)
        requires
            start.is_normalized(),
            in_clock_range(start.sec),
            timestamps_in_range(values_view(values@)),
            sum_defined(values_view(values@), span as int, start.total_nanos(), None),
        ensures
            r.wf(),
            r.pending() == sum_buckets(values_view(values@), span as int, start.total_nanos(), None),
    {
        let next = advance(start, span);
        proof {
            lemma_from_nanos(start.total_nanos() + span);
            assert(values_view(values@).subrange(0, values@.len() as int) =~= values_view(values@));
        }
        SumAggregator { values, pos: 0, span, start, next, value: None }
    }

    /// The next bucket, or `None` once all were handed out.
    pub fn next(&mut self) -> (r: Option<Value>)
        requires
            old(self).wf(),
        ensures
            final(self).wf(),
            old(self).pending().len() == 0 ==> r is None && final(self).pending().len() == 0,
            old(self).pending().len() > 0 ==> (r matches Some(v) && is_bucket_value(
                v,
                old(self).pending()[0],
            ) && final(self).pending() == old(self).pending().drop_first()),
    {
        loop
            invariant
                self.wf(),
                self.pending() == old(self).pending(),
            decreases self.values@.len() - self.pos,
        {
            let values = self.values;
            if self.pos == values.len() {
                proof {
                    assert(self.remaining().len() == 0);
                    lemma_normalized_from_nanos(self.start);
                }
                match self.value {
                    None => {
                        return None;
                    },
                    Some(a) => {
                        self.value = None;
                        return Some(Value { timestamp: self.start, tags: Vec::new(), value: a });
                    },
                }
            }
            let ts = values[self.pos].timestamp;
            let val = values[self.pos].value;
            let ghost rem = self.remaining();
            proof {
                assert(rem[0] == values@[self.pos as int]@);
                assert(rem.drop_first() =~= values_view(values@).subrange(
                    self.pos + 1,
                    values@.len() as int,
                ));
                lemma_normalized_from_nanos(self.next);
                lemma_normalized_from_nanos(self.start);
            }
            let crosses = self.next.before(&ts);
            self.pos = self.pos + 1;
            assert(self.remaining() == rem.drop_first());
            match self.value {
                None => {
                    self.value = Some(val);
                    if crosses {
                        self.start = next_timestamp(self.start, self.span, ts);
                        self.next = advance(self.start, self.span);
                        proof {
                            lemma_from_nanos(self.start.total_nanos() + self.span);
                        }
                    }
                },
                Some(a) => {
                    if crosses {
                        let out = Value { timestamp: self.start, tags: Vec::new(), value: a };
                        self.start = next_timestamp(self.start, self.span, ts);
                        self.next = advance(self.start, self.span);
                        self.value = Some(val);
                        proof {
                            lemma_from_nanos(self.start.total_nanos() + self.span);
                        }
                        return Some(out);
                    } else {
                        self.value = Some(a + val);
                    }
                },
            }
        }
    }
}

} // verus!

verus! {

/// Whether summing `values` in buckets of `span` nanoseconds, the first
/// starting at `start`, is defined: it runs the buckets forward without
/// summing anything.
pub fn sum_is_defined(values: &Vec<Value>, span: i64, start: Timespec) -> (r: bool)
    requires
        start.is_normalized(),
        in_clock_range(start.sec),
        timestamps_in_range(values_view(values@)),
    ensures
        r == sum_defined(values_view(values@), span as int, start.total_nanos(), None),
{
    let ghost all = values_view(values@);
    let mut s = start;
    let mut next = advance(start, span);
    let mut acc: Option<isize> = None;
    let mut i: usize = 0;
    proof {
        lemma_from_nanos(start.total_nanos() + span);
        assert(all.subrange(0, all.len() as int) =~= all);
    }
    while i < values.len()
        invariant
            i <= values@.len(),
            all == values_view(values@),
            timestamps_in_range(all),
            s.is_normalized(),
            in_grid_range(s.sec),
            next.is_normalized(),
            next.total_nanos() == s.total_nanos() + span,
            sum_defined(all, span as int, start.total_nanos(), None) == sum_defined(
                all.subrange(i as int, all.len() as int),
                span as int,
                s.total_nanos(),
                opt_int(acc),
            ),
        decreases values.len() - i,
    {
        let ts = values[i].timestamp;
        let val = values[i].value;
        let ghost rem = all.subrange(i as int, all.len() as int);
        proof {
            assert(rem[0] == values@[i as int]@);
            assert(rem.drop_first() =~= all.subrange(i + 1, all.len() as int));
            assert(in_clock_range(all[i as int].timestamp.sec));
            lemma_normalized_from_nanos(next);
            lemma_normalized_from_nanos(s);
        }
        let crosses = next.before(&ts);
        if crosses && span <= 0 {
            return false;
        }
        match acc {
            None => {
                acc = Some(val);
                if crosses {
                    s = next_timestamp(s, span, ts);
                    next = advance(s, span);
                    proof {
                        lemma_from_nanos(s.total_nanos() + span);
                    }
                }
            },
            Some(a) => {
                if crosses {
                    acc = Some(val);
                    s = next_timestamp(s, span, ts);
                    next = advance(s, span);
                    proof {
                        lemma_from_nanos(s.total_nanos() + span);
                    }
                } else {
                    match a.checked_add(val) {
                        None => {
                            return false;
                        },
                        Some(b) => {
                            acc = Some(b);
                        },
                    }
                }
            },
        }
        i = i + 1;
    }
    true
}

} // verus!

verus! {

/// How many spans `next_grid_nanos` steps forward.
pub open spec fn next_grid_steps(start: int, span: int, current: Timespec) -> nat
    decreases (if span > 0 && nanos_before(start, current) {
        (current.sec + 1) * 1_000_000_000 - start
    } else {
        0
    }),
{
    if span > 0 && nanos_before(start, current) {
        proof {
            lemma_nanos_before_bound(start, current);
            lemma_nanos_before_bound(start + span, current);
        }
        1 + next_grid_steps(start + span, span, current)
    } else {
        0
    }
}

/// The `k`-th point of the grid that starts at `origin` and steps by `span`.
pub open spec fn grid_point(origin: int, k: nat, span: int) -> int {
    origin + k * span
}

/// `t` lies on the grid of points `origin + k * span`, k >= 0.
pub open spec fn on_grid(t: int, origin: int, span: int) -> bool {
    exists|k: nat| t == #[trigger] grid_point(origin, k, span)
}

/// The point `next_timestamp` steps to is the first point of the grid
/// `start + k * span` that does not come before `current`: it lies on the
/// grid, it does not come before `current`, and unless it is `start` itself,
/// the grid point one span earlier does.
pub proof fn lemma_next_grid(start: int, span: int, current: Timespec)
    requires
        span > 0,
    ensures
        next_grid_nanos(start, span, current) == start + next_grid_steps(start, span, current)
            * span,
        on_grid(next_grid_nanos(start, span, current), start, span),
        !nanos_before(next_grid_nanos(start, span, current), current),
        next_grid_nanos(start, span, current) >= threshold(current) || next_grid_nanos(
            start,
            span,
            current,
        ) == start,
        next_grid_steps(start, span, current) > 0 ==> nanos_before(
            next_grid_nanos(start, span, current) - span,
            current,
        ),
    decreases (if nanos_before(start, current) {
        (current.sec + 1) * 1_000_000_000 - start
    } else {
        0
    }),
{
    lemma_before_threshold(next_grid_nanos(start, span, current), current);
    if nanos_before(start, current) {
        lemma_nanos_before_bound(start, current);
        lemma_nanos_before_bound(start + span, current);
        lemma_next_grid(start + span, span, current);
        let k = next_grid_steps(start + span, span, current);
        assert(start + span + k * span == start + (1 + k) * span) by (nonlinear_arith);
        if k == 0 {
            assert(next_grid_nanos(start, span, current) - span == start);
        }
    }
    let r = next_grid_nanos(start, span, current);
    let k = next_grid_steps(start, span, current);
    if !nanos_before(start, current) {
        assert(start + k * span == start) by (nonlinear_arith)
            requires
                k == 0,
        ;
    }
    assert(r == grid_point(start, k, span));
}

/// The sum of the numbers of the values.
pub open spec fn values_total(values: Seq<ValueView>) -> int
    decreases values.len(),
{
    if values.len() == 0 {
        0
    } else {
        values[0].value + values_total(values.drop_first())
    }
}

/// The sum of the sums of the buckets.
pub open spec fn buckets_total(buckets: Seq<(int, int)>) -> int
    decreases buckets.len(),
{
    if buckets.len() == 0 {
        0
    } else {
        buckets[0].1 + buckets_total(buckets.drop_first())
    }
}

/// Summing per bucket loses nothing and adds nothing: the sums of the
/// buckets add up to the sum of all values (and of the bucket being filled).
pub proof fn lemma_sum_buckets_total(values: Seq<ValueView>, span: int, start: int, acc: Option<int>)
    ensures
        buckets_total(sum_buckets(values, span, start, acc)) == values_total(values) + match acc {
            Some(a) => a,
            None => 0,
        },
    decreases values.len(),
{
    if values.len() == 0 {
        if let Some(a) = acc {
            assert(seq![(start, a)].drop_first() =~= Seq::<(int, int)>::empty());
            assert(buckets_total(Seq::<(int, int)>::empty()) == 0);
            assert(buckets_total(seq![(start, a)]) == a);
        }
    } else {
        let v = values[0];
        let rest = values.drop_first();
        let crosses = nanos_before(start + span, v.timestamp);
        let new_start = next_grid_nanos(start, span, v.timestamp);
        match acc {
            None => {
                if crosses {
                    lemma_sum_buckets_total(rest, span, new_start, Some(v.value as int));
                } else {
                    lemma_sum_buckets_total(rest, span, start, Some(v.value as int));
                }
            },
            Some(a) => {
                if crosses {
                    lemma_sum_buckets_total(rest, span, new_start, Some(v.value as int));
                    let tail = sum_buckets(rest, span, new_start, Some(v.value as int));
                    assert((seq![(start, a)] + tail).drop_first() =~= tail);
                    assert((seq![(start, a)] + tail)[0] == (start, a));
                    assert(sum_buckets(values, span, start, acc) == seq![(start, a)] + tail);
                } else {
                    lemma_sum_buckets_total(rest, span, start, Some(a + v.value));
                }
            },
        }
    }
}

/// With a positive span, the buckets start on the grid `origin + k * span`
/// (when the first bucket does), no earlier than the first bucket, and each
/// strictly after the one before.
pub proof fn lemma_sum_buckets_on_grid(
    values: Seq<ValueView>,
    span: int,
    start: int,
    acc: Option<int>,
    origin: int,
)
    requires
        span > 0,
        on_grid(start, origin, span),
    ensures
        forall|i: int|
            0 <= i < sum_buckets(values, span, start, acc).len() ==> on_grid(
                #[trigger] sum_buckets(values, span, start, acc)[i].0,
                origin,
                span,
            ) && start <= sum_buckets(values, span, start, acc)[i].0,
        forall|i: int, j: int|
            0 <= i < j < sum_buckets(values, span, start, acc).len() ==> sum_buckets(
                values,
                span,
                start,
                acc,
            )[i].0 < sum_buckets(values, span, start, acc)[j].0,
    decreases values.len(),
{
    let bs = sum_buckets(values, span, start, acc);
    if values.len() > 0 {
        let v = values[0];
        let rest = values.drop_first();
        let crosses = nanos_before(start + span, v.timestamp);
        let new_start = next_grid_nanos(start, span, v.timestamp);
        lemma_next_grid(start, span, v.timestamp);
        lemma_before_threshold(start + span, v.timestamp);
        let k0 = choose|k: nat| start == #[trigger] grid_point(origin, k, span);
        let k1 = next_grid_steps(start, span, v.timestamp);
        assert(new_start == origin + (k0 + k1) * span) by (nonlinear_arith)
            requires
                start == origin + k0 * span,
                new_start == start + k1 * span,
        ;
        assert(new_start == grid_point(origin, (k0 + k1) as nat, span));
        assert(start <= new_start) by (nonlinear_arith)
            requires
                new_start == start + k1 * span,
                span > 0,
                k1 >= 0,
        ;
        match acc {
            None => {
                if crosses {
                    lemma_sum_buckets_on_grid(rest, span, new_start, Some(v.value as int), origin);
                    assert(bs == sum_buckets(rest, span, new_start, Some(v.value as int)));
                } else {
                    lemma_sum_buckets_on_grid(rest, span, start, Some(v.value as int), origin);
                    assert(bs == sum_buckets(rest, span, start, Some(v.value as int)));
                }
            },
            Some(a) => {
                if crosses {
                    lemma_sum_buckets_on_grid(rest, span, new_start, Some(v.value as int), origin);
                    let tail = sum_buckets(rest, span, new_start, Some(v.value as int));
                    assert(bs == seq![(start, a)] + tail);
                    assert(new_start > start);
                    assert forall|i: int| 0 <= i < bs.len() implies on_grid(
                        #[trigger] bs[i].0,
                        origin,
                        span,
                    ) && start <= bs[i].0 by {
                        if i > 0 {
                            assert(bs[i] == tail[i - 1]);
                        }
                    }
                    assert forall|i: int, j: int| 0 <= i < j < bs.len() implies bs[i].0
                        < bs[j].0 by {
                        assert(bs[j] == tail[j - 1]);
                        if i > 0 {
                            assert(bs[i] == tail[i - 1]);
                        }
                    }
                } else {
                    lemma_sum_buckets_on_grid(rest, span, start, Some(a + v.value), origin);
                    assert(bs == sum_buckets(rest, span, start, Some(a + v.value)));
                }
            },
        }
    } else {
        if let Some(a) = acc {
            assert(bs == seq![(start, a)]);
            assert(bs[0].0 == start);
        }
    }
}

} // verus!
