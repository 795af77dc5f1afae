//! What is kept of the values that were recorded under one key in one period.
use crate::double::{
    is_double, law_conversion_is_idempotent, law_small_integers_are_exact, lemma_count_stays_in_range,
    lemma_rounded_word, lemma_sum_stays_in_range, rounded, to_double, SIGNIFICANDS, SUM_LIMIT,
};
use crate::metric::{StatisticSet, Value};
use std::collections::HashMap;
use vstd::prelude::*;

verus! {

/// How often a sample has been recorded.
pub type Count = usize;

/// The sample of a histogram.
pub type HistogramValue = u64;

/// The increments of a counter: how many there were, and what they add up to.
#[derive(Clone, Copy, Debug, PartialEq, Eq)]
pub struct Counter {
    pub sample_count: u64,
    pub sum: u64,
}

/// What was recorded under one key in one period.
#[derive(Debug)]
pub struct Aggregate {
    pub counter: Counter,
    pub gauge: StatisticSet,
    pub histogram: HashMap<HistogramValue, Count>,
}

/// The contents of an [`Aggregate`].
#[verifier::ext_equal]
pub struct AggregateView {
    pub counter: Counter,
    pub gauge: StatisticSet,
    pub histogram: Map<HistogramValue, Count>,
}

impl View for Aggregate {
    type V = AggregateView;

    open spec fn view(&self) -> AggregateView {
        AggregateView { counter: self.counter, gauge: self.gauge, histogram: self.histogram@ }
    }
}

/// The larger of two numbers.
pub open spec fn larger(a: int, b: int) -> int {
    if a < b {
        b
    } else {
        a
    }
}

/// The smaller of two numbers.
pub open spec fn smaller(a: int, b: int) -> int {
    if b < a {
        b
    } else {
        a
    }
}

/// What a gauge keeps once a further reading has come in. The readings and the sum are doubles; the
/// extremes take in the zero that they start from.
pub open spec fn gauge_with(gauge: StatisticSet, reading: i64) -> StatisticSet {
    let double = rounded(reading as int);
    StatisticSet {
        sample_count: rounded(gauge.sample_count + 1) as i128,
        sum: rounded(gauge.sum + double) as i128,
        maximum: larger(gauge.maximum as int, double) as i128,
        minimum: smaller(gauge.minimum as int, double) as i128,
    }
}

/// What every gauge keeps to: its numbers are doubles, its sum has come to no more than sums of
/// readings come to, its extremes lie on either side of zero, and without a reading all are zero.
pub open spec fn gauge_is_valid(gauge: StatisticSet) -> bool {
    &&& 0 <= gauge.sample_count <= SIGNIFICANDS
    &&& -SUM_LIMIT <= gauge.sum <= SUM_LIMIT
    &&& 0 <= gauge.maximum <= 0x8000_0000_0000_0000
    &&& -0x8000_0000_0000_0000 <= gauge.minimum <= 0
    &&& is_double(gauge.sample_count as int)
    &&& is_double(gauge.sum as int)
    &&& is_double(gauge.maximum as int)
    &&& is_double(gauge.minimum as int)
    &&& gauge.sample_count == 0 ==> gauge.sum == 0 && gauge.maximum == 0 && gauge.minimum == 0
}

impl AggregateView {
    /// Nothing recorded.
    pub open spec fn empty() -> AggregateView {
        AggregateView {
            counter: Counter { sample_count: 0, sum: 0 },
            gauge: StatisticSet { sample_count: 0, sum: 0, maximum: 0, minimum: 0 },
            histogram: Map::empty(),
        }
    }

    /// What every aggregate keeps to: its gauge is valid, its counter adds up to nothing without an
    /// increment, and each sample of its histogram was recorded at least once.
    pub open spec fn is_valid(self) -> bool {
        &&& gauge_is_valid(self.gauge)
        &&& self.counter.sample_count == 0 ==> self.counter.sum == 0
        &&& forall|sample: HistogramValue| #[trigger]
            self.histogram.contains_key(sample) ==> self.histogram[sample] >= 1
    }

    /// Whether anything was recorded.
    pub open spec fn holds_something(self) -> bool {
        self.counter.sample_count > 0 || self.gauge.sample_count > 0 || !(self.histogram =~= Map::empty())
    }

    /// How often a sample was recorded for the histogram.
    pub open spec fn count_of(self, sample: HistogramValue) -> nat {
        if self.histogram.contains_key(sample) {
            self.histogram[sample] as nat
        } else {
            0
        }
    }

    /// Whether a further value can be counted: no count or sum outgrows its type.
    pub open spec fn has_room_for(self, value: Value) -> bool {
        match value {
            Value::Counter(increment) => self.counter.sample_count < u64::MAX && self.counter.sum + increment
                <= u64::MAX,
            Value::Gauge(_) => true,
            Value::Histogram(sample) => self.count_of(sample) < usize::MAX,
        }
    }

    /// What is kept once a further value has come in.
    pub open spec fn with(self, value: Value) -> AggregateView {
        match value {
            Value::Counter(increment) => AggregateView {
                counter: Counter {
                    sample_count: (self.counter.sample_count + 1) as u64,
                    sum: (self.counter.sum + increment) as u64,
                },
                ..self
            },
            Value::Gauge(reading) => AggregateView { gauge: gauge_with(self.gauge, reading), ..self },
            Value::Histogram(sample) => AggregateView {
                histogram: self.histogram.insert(sample, (self.count_of(sample) + 1) as usize),
                ..self
            },
        }
    }
}

impl AggregateView {
    /// What is kept once several values have come in, one after another.
    pub open spec fn with_all(self, values: Seq<Value>) -> AggregateView
        decreases values.len(),
    {
        if values.len() == 0 {
            self
        } else {
            self.with_all(values.drop_last()).with(values.last())
        }
    }

    /// Whether several values can be counted, one after another.
    pub open spec fn has_room_for_all(self, values: Seq<Value>) -> bool
        decreases values.len(),
    {
        values.len() > 0 ==> self.has_room_for_all(values.drop_last()) && self.with_all(
            values.drop_last(),
        ).has_room_for(values.last())
    }
}

/// How many of the values are increments of the counter.
pub open spec fn increments(values: Seq<Value>) -> nat
    decreases values.len(),
{
    if values.len() == 0 {
        0
    } else {
        increments(values.drop_last()) + match values.last() {
            Value::Counter(_) => 1nat,
            _ => 0nat,
        }
    }
}

/// What the increments among the values add up to.
pub open spec fn increment_total(values: Seq<Value>) -> nat
    decreases values.len(),
{
    if values.len() == 0 {
        0
    } else {
        increment_total(values.drop_last()) + match values.last() {
            Value::Counter(increment) => increment as nat,
            _ => 0nat,
        }
    }
}

/// How often a sample for the histogram occurs among the values.
pub open spec fn occurrences(values: Seq<Value>, sample: HistogramValue) -> nat
    decreases values.len(),
{
    if values.len() == 0 {
        0
    } else {
        occurrences(values.drop_last(), sample) + if values.last() == Value::Histogram(sample) {
            1nat
        } else {
            0nat
        }
    }
}

/// How many of the values are readings of the gauge.
pub open spec fn readings(values: Seq<Value>) -> nat
    decreases values.len(),
{
    if values.len() == 0 {
        0
    } else {
        readings(values.drop_last()) + match values.last() {
            Value::Gauge(_) => 1nat,
            _ => 0nat,
        }
    }
}

/// What the readings among the values add up to.
pub open spec fn reading_total(values: Seq<Value>) -> int
    decreases values.len(),
{
    if values.len() == 0 {
        0
    } else {
        reading_total(values.drop_last()) + match values.last() {
            Value::Gauge(reading) => reading as int,
            _ => 0,
        }
    }
}

/// What the readings among the values add up to without their signs.
pub open spec fn reading_magnitude(values: Seq<Value>) -> int
    decreases values.len(),
{
    if values.len() == 0 {
        0
    } else {
        reading_magnitude(values.drop_last()) + match values.last() {
            Value::Gauge(reading) => if reading < 0 {
                -(reading as int)
            } else {
                reading as int
            },
            _ => 0,
        }
    }
}

impl Default for Counter {
    fn default() -> (counter: Self)
        ensures
            counter == (Counter { sample_count: 0, sum: 0 }),
    {
        Counter { sample_count: 0, sum: 0 }
    }
}

impl Default for Aggregate {
    fn default() -> (aggregate: Self)
        ensures
            aggregate@ == AggregateView::empty(),
    {
        Aggregate { counter: Default::default(), gauge: Default::default(), histogram: HashMap::new() }
    }
}

impl Aggregate {
    /// Whether a further value can be counted.
    pub fn has_room_for(&self, value: Value) -> (room: bool)
        ensures
            room == self@.has_room_for(value),
    {
        match value {
            Value::Counter(increment) => self.counter.sample_count < u64::MAX && increment <= u64::MAX
                - self.counter.sum,
            Value::Gauge(_) => true,
            Value::Histogram(sample) => match self.histogram.get(&sample) {
                Some(count) => *count < usize::MAX,
                None => true,
            },
        }
    }

    /// Takes a further value in.
    pub fn record(&mut self, value: Value)
        requires
            old(self)@.is_valid(),
            old(self)@.has_room_for(value),
        ensures
            final(self)@ == old(self)@.with(value),
            final(self)@.is_valid(),
            final(self)@.holds_something(),
    {
        match value {
            Value::Counter(increment) => {
                self.counter.sample_count += 1;
                self.counter.sum += increment;
            },
            Value::Gauge(reading) => {
                proof {
                    lemma_gauge_stays_valid(self.gauge, reading);
                }
                let double: i128 = to_double(reading as i128);
                self.gauge.sample_count = to_double(self.gauge.sample_count + 1);
                self.gauge.sum = to_double(self.gauge.sum + double);
                if self.gauge.maximum < double {
                    self.gauge.maximum = double;
                }
                if double < self.gauge.minimum {
                    self.gauge.minimum = double;
                }
            },
            Value::Histogram(sample) => {
                let count: usize = match self.histogram.get(&sample) {
                    Some(count) => *count,
                    None => 0,
                };
                self.histogram.insert(sample, count + 1);
                assert(self.histogram@.contains_key(sample));
            },
        }
    }
}

/// A further reading leaves a gauge within the bounds that hold of every gauge.
proof fn lemma_gauge_stays_valid(gauge: StatisticSet, reading: i64)
    requires
        gauge_is_valid(gauge),
    ensures
        gauge_is_valid(gauge_with(gauge, reading)),
        gauge_with(gauge, reading).sample_count > 0,
        -0x8000_0000_0000_0000 <= rounded(reading as int) <= 0x8000_0000_0000_0000,
{
    let double = rounded(reading as int);
    lemma_rounded_word(reading as int);
    lemma_sum_stays_in_range(gauge.sum as int, double);
    lemma_count_stays_in_range(gauge.sample_count as int);
    law_conversion_is_idempotent(reading as int);
    law_conversion_is_idempotent(gauge.sum + double);
    law_conversion_is_idempotent(gauge.sample_count + 1);
}

/// A further reading adds one to the count of readings, as far as a double can count, and itself, as
/// a double, to the sum, which is rounded to a double again; an extreme moves only to a reading beyond
/// it.
pub proof fn law_gauge_takes_a_reading_in(gauge: StatisticSet, reading: i64)
    requires
        gauge_is_valid(gauge),
    ensures
        gauge.sample_count < 9007199254740992 ==> gauge_with(gauge, reading).sample_count == gauge.sample_count + 1,
        gauge.sample_count >= 9007199254740992 ==> gauge_with(gauge, reading).sample_count == gauge.sample_count,
        gauge_with(gauge, reading).sum == rounded(gauge.sum + rounded(reading as int)),
        rounded(reading as int) > gauge.maximum ==> gauge_with(gauge, reading).maximum == rounded(reading as int),
        rounded(reading as int) <= gauge.maximum ==> gauge_with(gauge, reading).maximum == gauge.maximum,
        rounded(reading as int) < gauge.minimum ==> gauge_with(gauge, reading).minimum == rounded(reading as int),
        rounded(reading as int) >= gauge.minimum ==> gauge_with(gauge, reading).minimum == gauge.minimum,
{
    lemma_gauge_stays_valid(gauge, reading);
    lemma_rounded_word(reading as int);
    lemma_sum_stays_in_range(gauge.sum as int, rounded(reading as int));
    lemma_count_stays_in_range(gauge.sample_count as int);
}

/// A further value changes the counter, the gauge or the histogram, whichever it is for, and leaves
/// the other two as they are. An increment adds itself to the sum and one to the number of increments;
/// a sample adds one to its own count. There is room for a value unless one of these would outgrow its
/// type.
pub proof fn law_value_is_taken_in(aggregate: AggregateView, value: Value)
    ensures
        ({
            let after = aggregate.with(value);
            match value {
                Value::Counter(increment) => {
                    &&& aggregate.has_room_for(value) <==> aggregate.counter.sample_count + 1 <= u64::MAX
                        && aggregate.counter.sum + increment <= u64::MAX
                    &&& aggregate.has_room_for(value) ==> {
                        &&& after.counter.sample_count == aggregate.counter.sample_count + 1
                        &&& after.counter.sum == aggregate.counter.sum + increment
                    }
                    &&& after.gauge == aggregate.gauge
                    &&& after.histogram == aggregate.histogram
                },
                Value::Gauge(reading) => {
                    &&& aggregate.has_room_for(value)
                    &&& after.counter == aggregate.counter
                    &&& after.gauge == gauge_with(aggregate.gauge, reading)
                    &&& after.histogram == aggregate.histogram
                },
                Value::Histogram(sample) => {
                    &&& aggregate.has_room_for(value) <==> (aggregate.histogram.contains_key(sample)
                        ==> aggregate.histogram[sample] + 1 <= usize::MAX)
                    &&& after.counter == aggregate.counter
                    &&& after.gauge == aggregate.gauge
                    &&& after.histogram.contains_key(sample)
                    &&& !aggregate.histogram.contains_key(sample) ==> after.histogram[sample] == 1
                    &&& aggregate.has_room_for(value) && aggregate.histogram.contains_key(sample)
                        ==> after.histogram[sample] == aggregate.histogram[sample] + 1
                    &&& forall|other: HistogramValue|
                        other != sample ==> {
                            &&& #[trigger] after.histogram.contains_key(other) <==> aggregate.histogram.contains_key(
                                other,
                            )
                            &&& after.histogram[other] == aggregate.histogram[other]
                        }
                },
            }
        }),
{
}

/// A counter keeps the number of its increments and their sum, whatever else was recorded between
/// them.
pub proof fn law_counter_adds_up(aggregate: AggregateView, values: Seq<Value>)
    requires
        aggregate.has_room_for_all(values),
    ensures
        aggregate.with_all(values).counter.sample_count == aggregate.counter.sample_count + increments(values),
        aggregate.with_all(values).counter.sum == aggregate.counter.sum + increment_total(values),
    decreases values.len(),
{
    if values.len() > 0 {
        law_counter_adds_up(aggregate, values.drop_last());
    }
}

/// A histogram counts how often each sample was recorded.
pub proof fn law_histogram_counts_samples(aggregate: AggregateView, values: Seq<Value>, sample: HistogramValue)
    requires
        aggregate.has_room_for_all(values),
    ensures
        aggregate.with_all(values).count_of(sample) == aggregate.count_of(sample) + occurrences(values, sample),
    decreases values.len(),
{
    if values.len() > 0 {
        law_histogram_counts_samples(aggregate, values.drop_last(), sample);
    }
}

/// Recording keeps an aggregate valid, whatever is recorded, and leaves something in it.
pub proof fn law_recording_keeps_aggregates_valid(aggregate: AggregateView, values: Seq<Value>)
    requires
        aggregate.is_valid(),
        aggregate.has_room_for_all(values),
    ensures
        aggregate.with_all(values).is_valid(),
        values.len() > 0 ==> aggregate.with_all(values).holds_something(),
    decreases values.len(),
{
    if values.len() > 0 {
        let before = aggregate.with_all(values.drop_last());
        law_recording_keeps_aggregates_valid(aggregate, values.drop_last());
        match values.last() {
            Value::Gauge(reading) => {
                lemma_gauge_stays_valid(before.gauge, reading);
            },
            Value::Histogram(sample) => {
                assert(aggregate.with_all(values).histogram.contains_key(sample));
            },
            Value::Counter(_) => {},
        }
    }
}

/// Readings leave a gauge valid.
proof fn lemma_gauge_stays_valid_throughout(aggregate: AggregateView, values: Seq<Value>)
    requires
        gauge_is_valid(aggregate.gauge),
    ensures
        gauge_is_valid(aggregate.with_all(values).gauge),
    decreases values.len(),
{
    if values.len() > 0 {
        lemma_gauge_stays_valid_throughout(aggregate, values.drop_last());
        if let Value::Gauge(reading) = values.last() {
            lemma_gauge_stays_valid(aggregate.with_all(values.drop_last()).gauge, reading);
        }
    }
}

/// A gauge counts its readings, as far as a double can count in steps of one.
pub proof fn law_gauge_counts_readings(aggregate: AggregateView, values: Seq<Value>)
    requires
        gauge_is_valid(aggregate.gauge),
    ensures
        aggregate.with_all(values).gauge.sample_count == smaller(
            aggregate.gauge.sample_count + readings(values),
            SIGNIFICANDS as int,
        ),
    decreases values.len(),
{
    if values.len() > 0 {
        law_gauge_counts_readings(aggregate, values.drop_last());
        lemma_count_stays_in_range(aggregate.with_all(values.drop_last()).gauge.sample_count as int);
    }
}

/// The sum of a gauge is exact as long as its readings, without their signs, add up to no more than
/// doubles can tell apart from their neighbours.
pub proof fn law_gauge_sum_is_exact(aggregate: AggregateView, values: Seq<Value>)
    requires
        -SIGNIFICANDS <= aggregate.gauge.sum - reading_magnitude(values),
        aggregate.gauge.sum + reading_magnitude(values) <= SIGNIFICANDS,
    ensures
        aggregate.with_all(values).gauge.sum == aggregate.gauge.sum + reading_total(values),
        -reading_magnitude(values) <= reading_total(values) <= reading_magnitude(values),
    decreases values.len(),
{
    if values.len() > 0 {
        law_gauge_sum_is_exact(aggregate, values.drop_last());
        if let Value::Gauge(reading) = values.last() {
            law_small_integers_are_exact(reading as int);
            law_small_integers_are_exact(aggregate.gauge.sum + reading_total(values));
        }
    }
}

/// The extremes of a gauge bound its readings, as doubles, and the extremes that it had; and each is
/// one of them.
pub proof fn law_gauge_keeps_extremes(aggregate: AggregateView, values: Seq<Value>)
    requires
        gauge_is_valid(aggregate.gauge),
    ensures
        aggregate.with_all(values).gauge.minimum <= aggregate.gauge.minimum,
        aggregate.gauge.maximum <= aggregate.with_all(values).gauge.maximum,
        forall|i: int|
            0 <= i < values.len() && #[trigger] values[i] is Gauge ==> aggregate.with_all(values).gauge.minimum
                <= rounded(values[i]->Gauge_0 as int) <= aggregate.with_all(values).gauge.maximum,
        aggregate.with_all(values).gauge.maximum == aggregate.gauge.maximum || exists|i: int|
            0 <= i < values.len() && #[trigger] values[i] is Gauge && aggregate.with_all(values).gauge.maximum
                == rounded(values[i]->Gauge_0 as int),
        aggregate.with_all(values).gauge.minimum == aggregate.gauge.minimum || exists|i: int|
            0 <= i < values.len() && #[trigger] values[i] is Gauge && aggregate.with_all(values).gauge.minimum
                == rounded(values[i]->Gauge_0 as int),
    decreases values.len(),
{
    if values.len() > 0 {
        let init = values.drop_last();
        law_gauge_keeps_extremes(aggregate, init);
        lemma_gauge_stays_valid_throughout(aggregate, init);
        let before = aggregate.with_all(init).gauge;
        let after = aggregate.with_all(values).gauge;
        if let Value::Gauge(reading) = values.last() {
            lemma_gauge_stays_valid(before, reading);
        }
        assert(values[values.len() - 1] == values.last());
        assert forall|i: int| 0 <= i < values.len() && #[trigger] values[i] is Gauge implies after.minimum <= rounded(
            values[i]->Gauge_0 as int,
        ) <= after.maximum by {
            if i < init.len() {
                assert(init[i] == values[i]);
            }
        }
        if after.maximum == before.maximum && before.maximum != aggregate.gauge.maximum {
            let i = choose|i: int|
                0 <= i < init.len() && #[trigger] init[i] is Gauge && before.maximum == rounded(
                    init[i]->Gauge_0 as int,
                );
            assert(values[i] == init[i]);
        }
        if after.minimum == before.minimum && before.minimum != aggregate.gauge.minimum {
            let i = choose|i: int|
                0 <= i < init.len() && #[trigger] init[i] is Gauge && before.minimum == rounded(
                    init[i]->Gauge_0 as int,
                );
            assert(values[i] == init[i]);
        }
    }
}

/// Two values can be recorded in either order, unless both are readings of the gauge: with room for
/// them in one order there is room in the other, and the same is kept.
pub proof fn law_values_commute(aggregate: AggregateView, one: Value, two: Value)
    requires
        !(one is Gauge && two is Gauge),
        aggregate.has_room_for(one),
        aggregate.with(one).has_room_for(two),
    ensures
        aggregate.has_room_for(two),
        aggregate.with(two).has_room_for(one),
        aggregate.with(one).with(two) == aggregate.with(two).with(one),
{
    assert(aggregate.with(one).with(two).histogram =~= aggregate.with(two).with(one).histogram);
}

/// Two readings can come in either order as long as doubles tell what they add up to from its
/// neighbours; the extremes and the number of readings do not depend on the order in any case.
pub proof fn law_readings_commute(gauge: StatisticSet, one: i64, two: i64)
    requires
        gauge_is_valid(gauge),
    ensures
        ({
            let this = gauge_with(gauge_with(gauge, one), two);
            let that = gauge_with(gauge_with(gauge, two), one);
            &&& this.sample_count == that.sample_count
            &&& this.maximum == that.maximum
            &&& this.minimum == that.minimum
            &&& (-SIGNIFICANDS <= one <= SIGNIFICANDS && -SIGNIFICANDS <= two <= SIGNIFICANDS && -SIGNIFICANDS
                <= gauge.sum + one <= SIGNIFICANDS && -SIGNIFICANDS <= gauge.sum + two <= SIGNIFICANDS) ==> this.sum
                == that.sum
        }),
{
    lemma_gauge_stays_valid(gauge, one);
    lemma_gauge_stays_valid(gauge, two);
    if -SIGNIFICANDS <= one <= SIGNIFICANDS && -SIGNIFICANDS <= two <= SIGNIFICANDS && -SIGNIFICANDS <= gauge.sum + one
        <= SIGNIFICANDS && -SIGNIFICANDS <= gauge.sum + two <= SIGNIFICANDS {
        law_small_integers_are_exact(one as int);
        law_small_integers_are_exact(two as int);
        law_small_integers_are_exact(gauge.sum + one);
        law_small_integers_are_exact(gauge.sum + two);
    }
}

} // verus!
