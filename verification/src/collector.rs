//! Collecting what is recorded until it is sent.
use crate::aggregate::{
    law_gauge_takes_a_reading_in, law_value_is_taken_in, Aggregate, AggregateView, Counter, HistogramValue,
};
use crate::batch::{
    dimensions_of, entries_metrics, entry_metrics, is_batch_of, is_entry_of, lemma_entries_metrics_concat, lists,
    metric_dimensions, metrics_for_key, Data, Entry,
};
use crate::config::CollectorConfig;
use crate::double::{law_small_integers_are_exact, rounded};
use crate::histogram::{histogram_walk, is_walk, law_parts_are_full};
use crate::metric::{dimension_views, metric_views, Datum, Dimension, Key, KeyView, MetricDatum, StatisticSet, Value};
use crate::time::{
    current_timestamp, law_periods_are_seconds_and_minutes, law_time_key_starts_the_period, period, period_start, rfc3339_millis, send_limit, time_key,
    timestamp_string, Clock, Resolution, Timestamp, LAST_TIMESTAMP,
};
use std::collections::BTreeMap;
use vstd::prelude::*;
use vstd::std_specs::btree::increasing_seq;
use vstd::std_specs::cmp::OrdSpec;
use vstd::std_specs::iter::IteratorSpec;

verus! {

/// What was recorded under one key in one period.
#[derive(Debug)]
struct Series {
    key: Key,
    aggregate: Aggregate,
}

/// Collects what is recorded, by period and by key, until it is sent.
pub struct Collector {
    metrics_data: BTreeMap<Timestamp, Vec<Series>>,
    config: CollectorConfig,
    clock: Clock,
}

/// What was recorded in the period that starts at a timestamp.
pub open spec fn recorded_in(data: Data, timestamp: Timestamp) -> Map<KeyView, AggregateView> {
    if data.contains_key(timestamp) {
        data[timestamp]
    } else {
        Map::empty()
    }
}

/// What was recorded under a key in the period that starts at a timestamp.
pub open spec fn recorded_under(data: Data, timestamp: Timestamp, key: KeyView) -> AggregateView {
    if recorded_in(data, timestamp).contains_key(key) {
        recorded_in(data, timestamp)[key]
    } else {
        AggregateView::empty()
    }
}

/// The data once a value has been recorded under a key in the period that starts at a timestamp.
pub open spec fn data_with(data: Data, timestamp: Timestamp, key: KeyView, value: Value) -> Data {
    data.insert(
        timestamp,
        recorded_in(data, timestamp).insert(key, recorded_under(data, timestamp, key).with(value)),
    )
}

/// The part of the data from before a time.
pub open spec fn data_before(data: Data, limit: Timestamp) -> Data {
    data.restrict(Set::new(|timestamp: Timestamp| timestamp < limit))
}

/// The part of the data that is not from before a time.
pub open spec fn data_since(data: Data, limit: Timestamp) -> Data {
    data.restrict(Set::new(|timestamp: Timestamp| timestamp >= limit))
}

/// Whether all the data from before a time have a date.
pub open spec fn has_dates_before(data: Data, limit: Timestamp) -> bool {
    forall|timestamp: Timestamp| #[trigger]
        data.contains_key(timestamp) && timestamp < limit ==> timestamp <= LAST_TIMESTAMP
}

/// What a collector is told.
#[derive(Debug)]
pub enum Message {
    /// To record a value.
    Datum(Datum),
    /// To give out what was recorded in the periods before a time, so that it is sent.
    SendBatch { send_all_before: Timestamp },
}

/// Why a message was not accepted.
#[derive(Clone, Copy, Debug, PartialEq, Eq)]
pub enum CollectorError {
    /// The system's clock stands before the Unix epoch.
    ClockBeforeEpoch,
    /// The current period starts at the Unix epoch, and there is no time before it.
    NothingBeforeEpoch,
    /// A count or a sum would outgrow its type.
    CountTooLarge,
    /// Something that is to be sent was recorded after the last second that has a date.
    DateOutOfRange,
}

/// Whether there is room for a further value in the period that `now` falls into.
pub open spec fn has_room_at(collector: Collector, now: Timestamp, key: KeyView, value: Value) -> bool {
    recorded_under(
        collector.data(),
        period_start(now, collector.config().resolution()) as Timestamp,
        key,
    ).has_room_for(value)
}

/// The data of a collector once a value has been recorded in the period that `now` falls into.
pub open spec fn data_with_at(collector: Collector, now: Timestamp, key: KeyView, value: Value) -> Data {
    data_with(collector.data(), period_start(now, collector.config().resolution()) as Timestamp, key, value)
}

/// What comes of recording a value when the clock shows the given time.
pub open spec fn datum_outcome(
    before: Collector,
    after: Collector,
    clock: Option<Timestamp>,
    key: KeyView,
    value: Value,
    result: Result<(), CollectorError>,
) -> bool {
    match clock {
        None => result == Err::<(), CollectorError>(CollectorError::ClockBeforeEpoch) && after.data() == before.data(),
        Some(now) => if has_room_at(before, now, key, value) {
            result == Ok::<(), CollectorError>(()) && after.data() == data_with_at(before, now, key, value)
        } else {
            result == Err::<(), CollectorError>(CollectorError::CountTooLarge) && after.data() == before.data()
        },
    }
}

/// What comes of giving out what was recorded before a time: it leaves the collector, as a batch of
/// metrics if there is anything.
pub open spec fn batch_outcome(
    before: Collector,
    after: Collector,
    limit: Timestamp,
    batch: Option<Vec<MetricDatum>>,
) -> bool {
    &&& after.data() == data_since(before.data(), limit)
    &&& batch is Some <==> exists|timestamp: Timestamp| #[trigger]
        before.data().contains_key(timestamp) && timestamp < limit
    &&& batch matches Some(metrics) ==> metrics@.len() > 0 && is_batch_of(
        metric_views(metrics@),
        before.config(),
        data_before(before.data(), limit),
    )
}

/// The message of a regular send when the clock shows the given time.
pub open spec fn send_outcome(clock: Option<Timestamp>, resolution: Resolution) -> Result<Message, CollectorError> {
    match clock {
        None => Err(CollectorError::ClockBeforeEpoch),
        Some(now) => if period_start(now, resolution) == 0 {
            Err(CollectorError::NothingBeforeEpoch)
        } else {
            Ok(Message::SendBatch { send_all_before: (period_start(now, resolution) - 1) as Timestamp })
        },
    }
}

/// Whether a key is that of the series at a place.
spec fn is_at(series: Seq<Series>, key: KeyView, place: int) -> bool {
    0 <= place < series.len() && series[place].key@ == key
}

/// What a sequence of series holds, by key.
spec fn series_view(series: Seq<Series>) -> Map<KeyView, AggregateView> {
    Map::new(
        |key: KeyView| exists|place: int| is_at(series, key, place),
        |key: KeyView| series[choose|place: int| is_at(series, key, place)].aggregate@,
    )
}

/// Whether no key occurs twice, and something was recorded under each.
spec fn series_is_valid(series: Seq<Series>) -> bool {
    &&& forall|i: int, j: int| 0 <= i < j < series.len() ==> (#[trigger] series[i]).key@ != (#[trigger] series[j]).key@
    &&& forall|i: int|
        0 <= i < series.len() ==> (#[trigger] series[i]).aggregate@.is_valid() && series[i].aggregate@.holds_something()
}

proof fn lemma_series_view(series: Seq<Series>)
    requires
        series_is_valid(series),
    ensures
        forall|i: int|
            0 <= i < series.len() ==> series_view(series).contains_key((#[trigger] series[i]).key@) && series_view(
                series,
            )[series[i].key@] == series[i].aggregate@,
{
    assert forall|i: int| 0 <= i < series.len() implies series_view(series).contains_key((#[trigger] series[i]).key@)
        && series_view(series)[series[i].key@] == series[i].aggregate@ by {
        assert(is_at(series, series[i].key@, i));
        let place = choose|place: int| is_at(series, series[i].key@, place);
        assert(place == i);
    }
}

/// The place of a key among the series, or their number if it is not among them.
fn find(series: &Vec<Series>, key: &Key) -> (place: usize)
    ensures
        place <= series@.len(),
        place < series@.len() ==> series@[place as int].key@ == key@,
        place == series@.len() ==> forall|i: int| 0 <= i < series@.len() ==> (#[trigger] series@[i]).key@ != key@,
{
    for i in 0..series.len()
        invariant
            forall|j: int| 0 <= j < i ==> (#[trigger] series@[j]).key@ != key@,
    {
        if series[i].key.equals(key) {
            return i;
        }
    }
    series.len()
}

/// Records a value under a key.
fn record(series: &mut Vec<Series>, key: Key, value: Value)
    requires
        series_is_valid(old(series)@),
        series_view(old(series)@).contains_key(key@) ==> series_view(old(series)@)[key@].has_room_for(value),
        !series_view(old(series)@).contains_key(key@) ==> AggregateView::empty().has_room_for(value),
    ensures
        series_is_valid(final(series)@),
        final(series)@.len() > 0,
        series_view(final(series)@) == series_view(old(series)@).insert(
            key@,
            if series_view(old(series)@).contains_key(key@) {
                series_view(old(series)@)[key@].with(value)
            } else {
                AggregateView::empty().with(value)
            },
        ),
{
    let ghost before = series@;
    let place: usize = find(series, &key);
    proof {
        lemma_series_view(before);
    }
    if place == series.len() {
        let mut aggregate: Aggregate = Default::default();
        aggregate.record(value);
        series.push(Series { key, aggregate });
    } else {
        series[place].aggregate.record(value);
    }
    proof {
        lemma_series_view(series@);
        let after = series_view(series@);
        let expected = series_view(before).insert(key@, series@[place as int].aggregate@);
        assert forall|other: KeyView| #[trigger] after.contains_key(other) <==> expected.contains_key(other) by {
            if after.contains_key(other) {
                let i = choose|i: int| is_at(series@, other, i);
                if i < before.len() {
                    assert(is_at(before, other, i));
                }
            }
            if series_view(before).contains_key(other) {
                let i = choose|i: int| is_at(before, other, i);
                assert(is_at(series@, other, i));
            }
        }
        assert forall|other: KeyView| #[trigger] after.contains_key(other) implies after[other] == expected[other] by {
            let i = choose|i: int| is_at(series@, other, i);
            assert(after[series@[i].key@] == series@[i].aggregate@);
            if i != place {
                assert(series_view(before)[before[i].key@] == before[i].aggregate@);
            }
        }
        assert(after =~= expected);
    }
}

/// Whether an entry shows what a series holds in a period.
spec fn shows(entry: Entry, timestamp: Timestamp, series: Series) -> bool {
    &&& entry.timestamp == timestamp
    &&& entry.key == series.key@
    &&& entry.counter == series.aggregate@.counter
    &&& entry.gauge == series.aggregate@.gauge
    &&& is_walk(entry.walk, series.aggregate@.histogram)
}

/// Entries for all the series of a later period complete a list to one with that period.
proof fn lemma_lists_with_period(
    entries: Seq<Entry>,
    data: Data,
    timestamp: Timestamp,
    series: Seq<Series>,
    added: Seq<Entry>,
)
    requires
        lists(entries, data),
        forall|earlier: Timestamp| #[trigger] data.contains_key(earlier) ==> earlier < timestamp,
        series_is_valid(series),
        added.len() == series.len(),
        forall|i: int| 0 <= i < added.len() ==> shows(#[trigger] added[i], timestamp, series[i]),
    ensures
        lists(entries + added, data.insert(timestamp, series_view(series))),
{
    let all = entries + added;
    let grown = data.insert(timestamp, series_view(series));
    lemma_series_view(series);
    assert forall|i: int| 0 <= i < all.len() implies is_entry_of(#[trigger] all[i], grown) by {
        if i < entries.len() {
            assert(is_entry_of(entries[i], data));
        } else {
            let k = i - entries.len();
            assert(shows(added[k], timestamp, series[k]));
            assert(series_view(series)[series[k].key@] == series[k].aggregate@);
        }
    }
    assert forall|i: int, j: int| 0 <= i < j < all.len() implies {
        ||| (#[trigger] all[i]).timestamp < (#[trigger] all[j]).timestamp
        ||| all[i].timestamp == all[j].timestamp && all[i].key != all[j].key
    } by {
        if i < entries.len() {
            assert(is_entry_of(entries[i], data));
            if j < entries.len() {
                assert(all[i] == entries[i] && all[j] == entries[j]);
            } else {
                assert(shows(added[j - entries.len()], timestamp, series[j - entries.len()]));
            }
        } else {
            let (k, l) = (i - entries.len(), j - entries.len());
            assert(shows(added[k], timestamp, series[k]) && shows(added[l], timestamp, series[l]));
            assert(series[k].key@ != series[l].key@);
        }
    }
    assert forall|time: Timestamp, key: KeyView|
        grown.contains_key(time) && #[trigger] grown[time].contains_key(key) implies exists|i: int|
        0 <= i < all.len() && (#[trigger] all[i]).timestamp == time && all[i].key == key by {
        if time == timestamp {
            let place = choose|place: int| is_at(series, key, place);
            assert(shows(added[place], timestamp, series[place]));
            assert(all[entries.len() + place] == added[place]);
        } else {
            assert(data[time].contains_key(key));
            let i = choose|i: int|
                0 <= i < entries.len() && (#[trigger] entries[i]).timestamp == time && entries[i].key == key;
            assert(all[i] == entries[i]);
        }
    }
}

/// There is a metric for every key that something was recorded under.
proof fn lemma_entry_has_metrics(config: CollectorConfig, entry: Entry, aggregate: AggregateView)
    requires
        entry.counter == aggregate.counter,
        entry.gauge == aggregate.gauge,
        is_walk(entry.walk, aggregate.histogram),
        aggregate.holds_something(),
    ensures
        entry_metrics(config, entry).len() > 0,
{
    if aggregate.counter.sample_count == 0 && aggregate.gauge.sample_count <= 0 {
        let sample = choose|sample: u64| aggregate.histogram.contains_key(sample);
        assert(aggregate.histogram.contains_key(sample));
        assert(entry.walk.contains((sample, aggregate.histogram[sample])));
        law_parts_are_full(entry.walk);
    }
}

/// A collector keeps nothing without content: its dimensions are in order, each period that it knows
/// starts at a multiple of the length of a period, something was recorded in it, and something under
/// each key of it, in valid form: each sample of a histogram at least once.
pub proof fn law_collector_holds_only_recorded_data(collector: Collector)
    requires
        collector.is_valid(),
    ensures
        collector.config().is_valid(),
        forall|timestamp: Timestamp| #[trigger]
            collector.data().contains_key(timestamp) ==> timestamp as int % period(collector.config().resolution()) as int
                == 0,
        forall|timestamp: Timestamp| #[trigger]
            collector.data().contains_key(timestamp) ==> exists|key: KeyView|
                collector.data()[timestamp].contains_key(key),
        forall|timestamp: Timestamp, key: KeyView|
            collector.data().contains_key(timestamp) && #[trigger] collector.data()[timestamp].contains_key(key) ==> {
                &&& collector.data()[timestamp][key].is_valid()
                &&& collector.data()[timestamp][key].holds_something()
            },
        forall|timestamp: Timestamp, key: KeyView, sample: HistogramValue|
            collector.data().contains_key(timestamp) && collector.data()[timestamp].contains_key(key)
                && #[trigger] collector.data()[timestamp][key].histogram.contains_key(sample)
                ==> collector.data()[timestamp][key].histogram[sample] >= 1,
{
    let data = collector.data();
    assert forall|timestamp: Timestamp| #[trigger] data.contains_key(timestamp) implies timestamp as int % period(
        collector.config().resolution(),
    ) as int == 0 by {
        assert(collector.metrics_data@.contains_key(timestamp));
    }
    assert forall|timestamp: Timestamp| #[trigger] data.contains_key(timestamp) implies exists|key: KeyView|
        data[timestamp].contains_key(key) by {
        let series = collector.metrics_data@[timestamp]@;
        lemma_series_view(series);
        assert(data[timestamp].contains_key(series[0].key@));
    }
    assert forall|timestamp: Timestamp, key: KeyView|
        data.contains_key(timestamp) && #[trigger] data[timestamp].contains_key(key) implies {
        &&& data[timestamp][key].is_valid()
        &&& data[timestamp][key].holds_something()
    } by {
        assert(collector.metrics_data@.contains_key(timestamp));
        let series = collector.metrics_data@[timestamp]@;
        lemma_series_view(series);
        let place = choose|place: int| is_at(series, key, place);
        assert(data[timestamp][series[place].key@] == series[place].aggregate@);
    }
}

/// The parts of the data that a time splits them into: each period goes to one of them, with all that
/// it holds, by whether it starts before that time.
pub proof fn law_time_splits_the_data(data: Data, limit: Timestamp, timestamp: Timestamp)
    ensures
        data_before(data, limit).contains_key(timestamp) <==> data.contains_key(timestamp) && timestamp < limit,
        data_since(data, limit).contains_key(timestamp) <==> data.contains_key(timestamp) && timestamp >= limit,
        data.contains_key(timestamp) && timestamp < limit ==> data_before(data, limit)[timestamp] == data[timestamp],
        data.contains_key(timestamp) && timestamp >= limit ==> data_since(data, limit)[timestamp] == data[timestamp],
        has_dates_before(data, limit) && data.contains_key(timestamp) && timestamp < limit ==> timestamp
            <= 8_210_266_876_799,
        !has_dates_before(data, limit) ==> exists|late: Timestamp| #[trigger]
            data.contains_key(late) && 8_210_266_876_799 < late < limit,
{
}

/// Recording a value adds it to what is kept under its key in the second or the minute that the clock
/// shows, from nothing where nothing was kept there, and changes nothing else. It is refused, and
/// nothing changes, if the clock stands before the Unix epoch or a count or a sum would outgrow its
/// type, and only then.
pub proof fn law_recording_goes_to_the_current_period(
    before: Collector,
    after: Collector,
    clock: Option<Timestamp>,
    key: KeyView,
    value: Value,
    result: Result<(), CollectorError>,
)
    requires
        before.is_valid(),
        datum_outcome(before, after, clock, key, value, result),
    ensures
        clock is None ==> result == Err::<(), CollectorError>(CollectorError::ClockBeforeEpoch) && after.data()
            == before.data(),
        clock matches Some(now) ==> {
            let start: Timestamp = match before.config().resolution() {
                Resolution::Second => now,
                Resolution::Minute => (now - now % 60) as Timestamp,
            };
            let known = before.data().contains_key(start) && before.data()[start].contains_key(key);
            let kept = before.data()[start][key];
            let grown = after.data()[start][key];
            let counter = if known {
                kept.counter
            } else {
                Counter { sample_count: 0, sum: 0 }
            };
            let gauge = if known {
                kept.gauge
            } else {
                StatisticSet { sample_count: 0, sum: 0, maximum: 0, minimum: 0 }
            };
            let histogram = if known {
                kept.histogram
            } else {
                Map::empty()
            };
            let outgrown = match value {
                Value::Counter(increment) => counter.sample_count == u64::MAX || counter.sum + increment > u64::MAX,
                Value::Gauge(_) => false,
                Value::Histogram(sample) => histogram.contains_key(sample) && histogram[sample] == usize::MAX,
            };
            if outgrown {
                &&& result == Err::<(), CollectorError>(CollectorError::CountTooLarge)
                &&& after.data() == before.data()
            } else {
                &&& result == Ok::<(), CollectorError>(())
                &&& after.data().contains_key(start) && after.data()[start].contains_key(key)
                &&& forall|other: Timestamp|
                    other != start ==> {
                        &&& #[trigger] after.data().contains_key(other) <==> before.data().contains_key(other)
                        &&& after.data()[other] == before.data()[other]
                    }
                &&& forall|other: KeyView|
                    other != key ==> {
                        &&& #[trigger] after.data()[start].contains_key(other) <==> before.data().contains_key(start)
                            && before.data()[start].contains_key(other)
                        &&& after.data()[start].contains_key(other) ==> after.data()[start][other]
                            == before.data()[start][other]
                    }
                &&& match value {
                    Value::Counter(increment) => {
                        &&& grown.counter.sample_count == counter.sample_count + 1
                        &&& grown.counter.sum == counter.sum + increment
                        &&& grown.gauge == gauge
                        &&& grown.histogram == histogram
                    },
                    Value::Gauge(reading) => {
                        let double = rounded(reading as int);
                        &&& grown.counter == counter
                        &&& grown.histogram == histogram
                        &&& grown.gauge.sample_count == if gauge.sample_count < 9007199254740992 {
                            gauge.sample_count + 1
                        } else {
                            gauge.sample_count as int
                        }
                        &&& grown.gauge.sum == rounded(gauge.sum + double)
                        &&& grown.gauge.maximum == if double > gauge.maximum {
                            double
                        } else {
                            gauge.maximum as int
                        }
                        &&& grown.gauge.minimum == if double < gauge.minimum {
                            double
                        } else {
                            gauge.minimum as int
                        }
                    },
                    Value::Histogram(sample) => {
                        &&& grown.counter == counter
                        &&& grown.gauge == gauge
                        &&& grown.histogram.contains_key(sample)
                        &&& grown.histogram[sample] == if histogram.contains_key(sample) {
                            histogram[sample] + 1
                        } else {
                            1
                        }
                        &&& forall|other: HistogramValue|
                            other != sample ==> {
                                &&& #[trigger] grown.histogram.contains_key(other) <==> histogram.contains_key(other)
                                &&& histogram.contains_key(other) ==> grown.histogram[other] == histogram[other]
                            }
                    },
                }
            }
        },
{
    if let Some(now) = clock {
        law_periods_are_seconds_and_minutes(now, before.config().resolution());
        let start = period_start(now, before.config().resolution()) as Timestamp;
        let kept = recorded_under(before.data(), start, key);
        law_collector_holds_only_recorded_data(before);
        law_small_integers_are_exact(0);
        assert(kept.is_valid());
        law_value_is_taken_in(kept, value);
        if let Value::Gauge(reading) = value {
            law_gauge_takes_a_reading_in(kept.gauge, reading);
        }
    }
}

/// A send takes out every period that starts before its limit, leaves every other one as it is, and
/// gives out metrics if and only if it took something out: those of all that it took.
pub proof fn law_send_takes_what_is_due(
    before: Collector,
    after: Collector,
    limit: Timestamp,
    batch: Option<Vec<MetricDatum>>,
)
    requires
        batch_outcome(before, after, limit, batch),
    ensures
        forall|timestamp: Timestamp|
            {
                &&& #[trigger] after.data().contains_key(timestamp) <==> before.data().contains_key(timestamp)
                    && timestamp >= limit
                &&& after.data().contains_key(timestamp) ==> after.data()[timestamp] == before.data()[timestamp]
            },
        batch is None ==> after.data() == before.data(),
        batch matches Some(metrics) ==> metrics@.len() > 0 && exists|timestamp: Timestamp| #[trigger]
            before.data().contains_key(timestamp) && timestamp < limit,
        batch matches Some(metrics) ==> is_batch_of(
            metric_views(metrics@),
            before.config(),
            data_before(before.data(), limit),
        ),
{
    if batch is None {
        assert(after.data() =~= before.data());
    }
}

/// A regular send is refused if the clock stands before the Unix epoch or in the first period after
/// it; otherwise its limit is the last second before the second or the minute that the clock shows.
pub proof fn law_regular_send_ends_before_the_current_period(clock: Option<Timestamp>, resolution: Resolution)
    ensures
        clock is None ==> send_outcome(clock, resolution) == Err::<Message, CollectorError>(
            CollectorError::ClockBeforeEpoch,
        ),
        clock matches Some(now) ==> match resolution {
            Resolution::Second => if now == 0 {
                send_outcome(clock, resolution) == Err::<Message, CollectorError>(CollectorError::NothingBeforeEpoch)
            } else {
                send_outcome(clock, resolution) matches Ok(Message::SendBatch { send_all_before }) && send_all_before
                    + 1 == now
            },
            Resolution::Minute => if now < 60 {
                send_outcome(clock, resolution) == Err::<Message, CollectorError>(CollectorError::NothingBeforeEpoch)
            } else {
                send_outcome(clock, resolution) matches Ok(Message::SendBatch { send_all_before }) && (send_all_before
                    + 1) % 60 == 0 && send_all_before < now <= send_all_before + 60
            },
        },
{
    if let Some(now) = clock {
        law_periods_are_seconds_and_minutes(now, resolution);
    }
}

/// The keys of an ordered map come in the order of numbers.
proof fn lemma_increasing(keys: Seq<Timestamp>)
    requires
        increasing_seq(keys),
    ensures
        forall|i: int, j: int| 0 <= i < j < keys.len() ==> (#[trigger] keys[i]) < (#[trigger] keys[j]),
{
    assert forall|i: int, j: int| 0 <= i < j < keys.len() implies (#[trigger] keys[i]) < (#[trigger] keys[j]) by {
        assert(keys[i].cmp_spec(&keys[j]) is Less);
    }
}

impl Collector {
    /// What has been recorded and not been sent.
    pub closed spec fn data(self) -> Data {
        self.metrics_data@.map_values(|series: Vec<Series>| series_view(series@))
    }

    /// The settings of the collector.
    pub closed spec fn config(self) -> CollectorConfig {
        self.config
    }

    /// What the clock showed each time that the collector read it.
    pub closed spec fn readings(self) -> Seq<Option<Timestamp>> {
        self.clock.readings()
    }

    /// What every collector keeps to: each period starts at a multiple of its length, and holds
    /// series, without a repeated key, that something was recorded in.
    pub closed spec fn is_valid(self) -> bool {
        &&& self.config.is_valid()
        &&& forall|timestamp: Timestamp| #[trigger]
            self.metrics_data@.contains_key(timestamp) ==> {
                &&& timestamp as int % period(self.config.resolution()) as int == 0
                &&& series_is_valid(self.metrics_data@[timestamp]@)
                &&& self.metrics_data@[timestamp]@.len() > 0
            }
    }

    /// A collector that has recorded nothing.
    pub fn new(config: CollectorConfig) -> (collector: Collector)
        requires
            config.is_valid(),
        ensures
            collector.is_valid(),
            collector.config() == config,
            collector.data() == Data::empty(),
            collector.readings() == Seq::<Option<Timestamp>>::empty(),
    {
        let collector = Collector { metrics_data: BTreeMap::new(), config, clock: Clock::new() };
        assert(collector.data() =~= Data::empty());
        collector
    }

    /// The dimensions that every metric gets.
    pub fn default_dimensions(&self) -> (dimensions: Vec<Dimension>)
        ensures
            dimension_views(dimensions@) == self.config().dimensions(),
    {
        self.config.default_dimensions()
    }

    /// The dimensions of the metrics of a key.
    pub fn dimensions(&self, key: &Key) -> (dimensions: Vec<Dimension>)
        ensures
            dimension_views(dimensions@) == dimensions_of(self.config(), key@),
    {
        metric_dimensions(&self.config, key)
    }

    /// Records a value in the period that `now` falls into.
    pub fn accept_datum_at(&mut self, now: Timestamp, datum: Datum)
        requires
            old(self).is_valid(),
            has_room_at(*old(self), now, datum.key@, datum.value),
        ensures
            final(self).is_valid(),
            final(self).config() == old(self).config(),
            final(self).readings() == old(self).readings(),
            final(self).data() == data_with_at(*old(self), now, datum.key@, datum.value),
    {
        let timestamp: Timestamp = time_key(now, self.config.storage_resolution());
        let Datum { key, value } = datum;
        let mut series: Vec<Series> = match self.metrics_data.remove(&timestamp) {
            Some(series) => series,
            None => Vec::new(),
        };
        proof {
            if old(self).metrics_data@.contains_key(timestamp) {
                assert(old(self).data()[timestamp] == series_view(series@));
            } else {
                assert(series_view(series@) =~= Map::empty());
            }
        }
        record(&mut series, key, value);
        proof {
            law_time_key_starts_the_period(now, self.config.resolution());
        }
        self.metrics_data.insert(timestamp, series);
        assert(self.data() =~= data_with(old(self).data(), timestamp, datum.key@, datum.value));
    }

    /// The periods before a time in which something was recorded, in the order of time.
    fn periods_before(&self, limit: Timestamp) -> (periods: Vec<Timestamp>)
        ensures
            forall|i: int, j: int| 0 <= i < j < periods@.len() ==> (#[trigger] periods@[i]) < (#[trigger] periods@[j]),
            forall|i: int|
                0 <= i < periods@.len() ==> self.metrics_data@.contains_key(#[trigger] periods@[i]) && periods@[i]
                    < limit,
            forall|timestamp: Timestamp| #[trigger]
                self.metrics_data@.contains_key(timestamp) && timestamp < limit ==> periods@.contains(timestamp),
    {
        let mut periods: Vec<Timestamp> = Vec::new();
        for entry in entries: self.metrics_data.iter()
            invariant
                entries.seq() == self.metrics_data.iter().remaining(),
                increasing_seq(entries.seq().map_values(|entry: (&Timestamp, &Vec<Series>)| *entry.0)),
                periods@ == entries.seq().map_values(|entry: (&Timestamp, &Vec<Series>)| *entry.0).take(
                    entries.index(),
                ),
        {
            let ghost keys = entries.seq().map_values(|entry: (&Timestamp, &Vec<Series>)| *entry.0);
            periods.push(*entry.0);
            assert(keys.take(entries.index() + 1) =~= keys.take(entries.index()).push(keys[entries.index()]));
        }
        let ghost all = periods@;
        proof {
            let entries = self.metrics_data.iter().remaining();
            let keys = entries.map_values(|entry: (&Timestamp, &Vec<Series>)| *entry.0);
            assert(all =~= keys);
            lemma_increasing(keys);
            assert forall|i: int| 0 <= i < all.len() implies self.metrics_data@.contains_key(#[trigger] all[i]) by {
                assert(self.metrics_data@.contains_key(*entries[i].0));
            }
            assert forall|timestamp: Timestamp| #[trigger] self.metrics_data@.contains_key(timestamp) implies all.contains(
                timestamp,
            ) by {
                let k = choose|k: int|
                    0 <= k < entries.len() && entries[k] == (&timestamp, &self.metrics_data@[timestamp]);
                assert(all[k] == timestamp);
            }
        }
        let mut count: usize = 0;
        while count < periods.len() && periods[count] < limit
            invariant
                count <= periods@.len(),
                forall|i: int| 0 <= i < count ==> (#[trigger] periods@[i]) < limit,
            decreases periods@.len() - count,
        {
            count = count + 1;
        }
        periods.truncate(count);
        proof {
            assert(periods@ =~= all.take(count as int));
            assert forall|timestamp: Timestamp| #[trigger] self.metrics_data@.contains_key(timestamp) && timestamp
                < limit implies periods@.contains(timestamp) by {
                let k = choose|k: int| 0 <= k < all.len() && all[k] == timestamp;
                assert(k < count);
                assert(periods@[k] == timestamp);
            }
        }
        periods
    }

    /// The metrics of the series of a period, and the entries that they come from.
    fn metrics_for_period(&self, timestamp: Timestamp, series: &Vec<Series>) -> (result: (
        Vec<MetricDatum>,
        Ghost<Seq<Entry>>,
    ))
        requires
            timestamp <= LAST_TIMESTAMP,
        ensures
            metric_views(result.0@) == entries_metrics(self.config(), result.1@),
            result.1@.len() == series@.len(),
            forall|i: int| 0 <= i < series@.len() ==> shows(#[trigger] result.1@[i], timestamp, series@[i]),
    {
        let text = timestamp_string(timestamp);
        let mut metrics: Vec<MetricDatum> = Vec::new();
        let ghost mut entries: Seq<Entry> = Seq::empty();
        assert(metric_views(metrics@) =~= Seq::empty());
        for i in 0..series.len()
            invariant
                text@ == rfc3339_millis(timestamp),
                metric_views(metrics@) == entries_metrics(self.config(), entries),
                entries.len() == i,
                forall|j: int| 0 <= j < i ==> shows(#[trigger] entries[j], timestamp, series@[j]),
        {
            let Series { key, aggregate } = &series[i];
            let walk = histogram_walk(&aggregate.histogram);
            let mut more = metrics_for_key(&self.config, &text, key, aggregate.counter, aggregate.gauge, &walk);
            let ghost before = metric_views(metrics@);
            let ghost added = metric_views(more@);
            metrics.append(&mut more);
            proof {
                let entry = Entry {
                    timestamp,
                    key: key@,
                    counter: aggregate.counter,
                    gauge: aggregate.gauge,
                    walk: walk@,
                };
                assert(entries.push(entry).drop_last() =~= entries);
                assert(metric_views(metrics@) =~= before + added);
                entries = entries.push(entry);
            }
        }
        (metrics, Ghost(entries))
    }

    /// Takes all that was recorded in the periods before `send_all_before` out of the collector, as
    /// metrics to be sent; nothing, if nothing was recorded then.
    pub fn accept_send_batch(&mut self, send_all_before: Timestamp) -> (batch: Option<Vec<MetricDatum>>)
        requires
            old(self).is_valid(),
            has_dates_before(old(self).data(), send_all_before),
        ensures
            final(self).is_valid(),
            final(self).config() == old(self).config(),
            final(self).readings() == old(self).readings(),
            batch_outcome(*old(self), *final(self), send_all_before, batch),
    {
        let periods = self.periods_before(send_all_before);
        let mut metrics_batch: Vec<MetricDatum> = Vec::new();
        let ghost data = self.data();
        let ghost stored = self.metrics_data@;
        let ghost mut entries: Seq<Entry> = Seq::empty();
        proof {
            assert(metric_views(metrics_batch@) =~= Seq::empty());
            assert(data.restrict(periods@.take(0).to_set()) =~= Data::empty());
            assert forall|i: int| 0 <= i < periods@.len() implies (#[trigger] periods@[i]) <= LAST_TIMESTAMP by {
                assert(data.contains_key(periods@[i]));
            }
        }
        for i in 0..periods.len()
            invariant
                forall|i: int, j: int|
                    0 <= i < j < periods@.len() ==> (#[trigger] periods@[i]) < (#[trigger] periods@[j]),
                forall|i: int|
                    0 <= i < periods@.len() ==> stored.contains_key(#[trigger] periods@[i]) && periods@[i]
                        <= LAST_TIMESTAMP,
                forall|timestamp: Timestamp| #[trigger]
                    stored.contains_key(timestamp) ==> series_is_valid(stored[timestamp]@) && stored[timestamp]@.len()
                        > 0,
                data == stored.map_values(|series: Vec<Series>| series_view(series@)),
                self.config == old(self).config,
                self.clock == old(self).clock,
                self.metrics_data@ == stored.remove_keys(periods@.take(i as int).to_set()),
                lists(entries, data.restrict(periods@.take(i as int).to_set())),
                metric_views(metrics_batch@) == entries_metrics(self.config, entries),
                i > 0 ==> metrics_batch@.len() > 0,
        {
            let timestamp: Timestamp = periods[i];
            let ghost taken = periods@.take(i as int).to_set();
            proof {
                assert(periods@.take(i + 1) =~= periods@.take(i as int).push(timestamp));
                periods@.take(i as int).lemma_push_to_set_commute(timestamp);
                assert(!taken.contains(timestamp));
            }
            let series = self.metrics_data.remove(&timestamp).unwrap();
            let (mut metrics, Ghost(added)) = self.metrics_for_period(timestamp, &series);
            let ghost before = metric_views(metrics_batch@);
            let ghost more = metric_views(metrics@);
            metrics_batch.append(&mut metrics);
            proof {
                let part = data.restrict(taken);
                assert(data.restrict(taken.insert(timestamp)) =~= part.insert(timestamp, series_view(series@)));
                lemma_lists_with_period(entries, part, timestamp, series@, added);
                lemma_entries_metrics_concat(self.config, entries, added);
                assert(metric_views(metrics_batch@) =~= before + more);
                assert(shows(added[added.len() - 1], timestamp, series@[added.len() - 1]));
                lemma_entry_has_metrics(self.config, added.last(), series@[added.len() - 1].aggregate@);
                entries = entries + added;
            }
            assert(self.metrics_data@ =~= stored.remove_keys(periods@.take(i + 1).to_set()));
        }
        proof {
            let all = periods@.take(periods@.len() as int);
            assert(all =~= periods@);
            assert(data.restrict(all.to_set()) =~= data_before(data, send_all_before));
            assert(self.data() =~= data_since(data, send_all_before));
        }
        if metrics_batch.len() == 0 {
            None
        } else {
            Some(metrics_batch)
        }
    }

    /// Whether there is room for a further value in the period that `now` falls into.
    pub fn has_room_at(&self, now: Timestamp, datum: &Datum) -> (room: bool)
        requires
            self.is_valid(),
        ensures
            room == has_room_at(*self, now, datum.key@, datum.value),
    {
        let timestamp: Timestamp = time_key(now, self.config.storage_resolution());
        match self.metrics_data.get(&timestamp) {
            Some(series) => {
                let place: usize = find(series, &datum.key);
                proof {
                    lemma_series_view(series@);
                    assert(self.data()[timestamp] == series_view(series@));
                }
                if place < series.len() {
                    series[place].aggregate.has_room_for(datum.value)
                } else {
                    assert(!series_view(series@).contains_key(datum.key@));
                    true
                }
            },
            None => true,
        }
    }

    /// Whether all that was recorded in the periods before a time has a date.
    pub fn has_dates_before(&self, limit: Timestamp) -> (dated: bool)
        ensures
            dated == has_dates_before(self.data(), limit),
    {
        let periods = self.periods_before(limit);
        let dated = periods.len() == 0 || periods[periods.len() - 1] <= LAST_TIMESTAMP;
        proof {
            if dated {
                assert forall|timestamp: Timestamp| #[trigger] self.data().contains_key(timestamp) && timestamp
                    < limit implies timestamp <= LAST_TIMESTAMP by {
                    assert(self.metrics_data@.contains_key(timestamp));
                    let i = choose|i: int| 0 <= i < periods@.len() && periods@[i] == timestamp;
                    assert(i < periods@.len() - 1 ==> periods@[i] < periods@[periods@.len() - 1]);
                }
            } else {
                assert(self.data().contains_key(periods@[periods@.len() - 1]));
            }
        }
        dated
    }

    /// Records a value in the period that the clock shows, given what it shows.
    pub fn accept_datum_when(&mut self, clock: Option<Timestamp>, datum: Datum) -> (result: Result<(), CollectorError>)
        requires
            old(self).is_valid(),
        ensures
            final(self).is_valid(),
            final(self).config() == old(self).config(),
            final(self).readings() == old(self).readings(),
            datum_outcome(*old(self), *final(self), clock, datum.key@, datum.value, result),
    {
        match clock {
            None => Err(CollectorError::ClockBeforeEpoch),
            Some(now) => if self.has_room_at(now, &datum) {
                self.accept_datum_at(now, datum);
                Ok(())
            } else {
                Err(CollectorError::CountTooLarge)
            },
        }
    }

    /// Records a value in the current period: the one of what the clock shows when it is read, which
    /// it is once.
    pub fn accept_datum(&mut self, datum: Datum) -> (result: Result<(), CollectorError>)
        requires
            old(self).is_valid(),
        ensures
            final(self).is_valid(),
            final(self).config() == old(self).config(),
            final(self).readings().len() == old(self).readings().len() + 1,
            final(self).readings().drop_last() == old(self).readings(),
            datum_outcome(*old(self), *final(self), final(self).readings().last(), datum.key@, datum.value, result),
    {
        let clock = current_timestamp(&mut self.clock);
        let ghost seen = self.readings();
        proof {
            assert(seen.drop_last() =~= old(self).readings());
        }
        self.accept_datum_when(clock, datum)
    }

    /// Does what a message asks for. The result is a batch of metrics that is to be sent, if there
    /// is one. The clock is read once if a value is to be recorded, and not at all otherwise.
    pub fn accept(&mut self, message: Message) -> (result: Result<Option<Vec<MetricDatum>>, CollectorError>)
        requires
            old(self).is_valid(),
        ensures
            final(self).is_valid(),
            final(self).config() == old(self).config(),
            match message {
                Message::Datum(datum) => {
                    &&& final(self).readings().len() == old(self).readings().len() + 1
                    &&& final(self).readings().drop_last() == old(self).readings()
                    &&& result matches Ok(batch) ==> batch is None
                    &&& datum_outcome(
                        *old(self),
                        *final(self),
                        final(self).readings().last(),
                        datum.key@,
                        datum.value,
                        match result {
                            Ok(_) => Ok(()),
                            Err(error) => Err(error),
                        },
                    )
                },
                Message::SendBatch { send_all_before } => {
                    &&& final(self).readings() == old(self).readings()
                    &&& if has_dates_before(old(self).data(), send_all_before) {
                        result matches Ok(batch) && batch_outcome(*old(self), *final(self), send_all_before, batch)
                    } else {
                        &&& result == Err::<Option<Vec<MetricDatum>>, CollectorError>(CollectorError::DateOutOfRange)
                        &&& final(self).data() == old(self).data()
                    }
                },
            },
    {
        match message {
            Message::Datum(datum) => match self.accept_datum(datum) {
                Ok(()) => Ok(None),
                Err(error) => Err(error),
            },
            Message::SendBatch { send_all_before } => if self.has_dates_before(send_all_before) {
                Ok(self.accept_send_batch(send_all_before))
            } else {
                Err(CollectorError::DateOutOfRange)
            },
        }
    }
}

impl Message {
    /// The message of a regular send, given what the clock shows: to give out the periods that start
    /// before the last second ahead of the current one.
    pub fn regular_send_when(clock: Option<Timestamp>, resolution: Resolution) -> (result: Result<
        Message,
        CollectorError,
    >)
        ensures
            result == send_outcome(clock, resolution),
    {
        match clock {
            None => Err(CollectorError::ClockBeforeEpoch),
            Some(now) => if time_key(now, resolution) == 0 {
                Err(CollectorError::NothingBeforeEpoch)
            } else {
                Ok(Message::SendBatch { send_all_before: send_limit(now, resolution) })
            },
        }
    }

    /// The message of a regular send that happens now: when the clock shows what it does the one time
    /// that it is read.
    pub fn regular_send(resolution: Resolution) -> (result: Result<Message, CollectorError>)
        ensures
            exists|clock: Clock| #[trigger]
                clock.readings().len() == 1 && result == send_outcome(clock.readings()[0], resolution),
    {
        let mut clock = Clock::new();
        let now = current_timestamp(&mut clock);
        assert(clock.readings().len() == 1 && clock.readings()[0] == now);
        Message::regular_send_when(now, resolution)
    }

    /// The message of the last send, at the end: to give everything out.
    pub fn final_send() -> (message: Message)
        ensures
            message == (Message::SendBatch { send_all_before: Timestamp::MAX }),
    {
        Message::SendBatch { send_all_before: Timestamp::MAX }
    }
}

} // verus!
