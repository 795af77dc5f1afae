//! What holds of the library as a whole.
use crate::aggregate::{gauge_is_valid, law_values_commute, Count, HistogramValue};
use crate::batch::{
    bare_metric, counter_metrics, counter_set, dimensions_of, entries_metrics, entry_metrics, gauge_metrics,
    histogram_metrics, is_batch_of, is_entry_of, lemma_entries_metrics_concat, lists, part_metric, Data, Entry,
    MAX_CLOUDWATCH_DIMENSIONS,
};
use crate::chunk::{chunks, law_chunks_lose_nothing, size, MAX_CW_METRICS_PUT_SIZE};
use crate::collector::{data_before, data_since, data_with, recorded_under};
use crate::config::CollectorConfig;
use crate::double::{
    is_double, law_conversion_is_idempotent, lemma_count_stays_in_range, lemma_rounded_word, rounded,
};
use crate::histogram::{
    counts_of, law_parts_are_full, law_parts_lose_nothing, parts, values_of, MAX_HISTOGRAM_VALUES,
};
use crate::metric::{KeyView, MetricDatumView, Value};
use crate::time::{law_send_limit_spares_the_current_period, period_start, rfc3339_millis, Resolution, Timestamp};
use vstd::prelude::*;

verus! {

/// Recording a value changes what is kept under its key in its period, and nothing else.
pub proof fn law_recording_touches_one_key(
    data: Data,
    timestamp: Timestamp,
    key: KeyView,
    value: Value,
    other_timestamp: Timestamp,
    other_key: KeyView,
)
    ensures
        recorded_under(data_with(data, timestamp, key, value), other_timestamp, other_key) == if other_timestamp
            == timestamp && other_key == key {
            recorded_under(data, timestamp, key).with(value)
        } else {
            recorded_under(data, other_timestamp, other_key)
        },
{
}

/// Values that go to different keys, or to different periods, can be recorded in either order.
pub proof fn law_recording_under_different_keys_commutes(
    data: Data,
    timestamp: Timestamp,
    key: KeyView,
    value: Value,
    other_timestamp: Timestamp,
    other_key: KeyView,
    other_value: Value,
)
    requires
        timestamp != other_timestamp || key != other_key,
    ensures
        data_with(data_with(data, timestamp, key, value), other_timestamp, other_key, other_value) == data_with(
            data_with(data, other_timestamp, other_key, other_value),
            timestamp,
            key,
            value,
        ),
{
    let one = data_with(data_with(data, timestamp, key, value), other_timestamp, other_key, other_value);
    let two = data_with(data_with(data, other_timestamp, other_key, other_value), timestamp, key, value);
    if timestamp == other_timestamp {
        assert(one[timestamp] =~= two[timestamp]);
    }
    assert(one =~= two);
}

/// Values that go to one key in one period can be recorded in either order too, unless both are
/// readings of its gauge, where there is room for them.
pub proof fn law_recording_under_one_key_commutes(
    data: Data,
    timestamp: Timestamp,
    key: KeyView,
    value: Value,
    other_value: Value,
)
    requires
        !(value is Gauge && other_value is Gauge),
        recorded_under(data, timestamp, key).has_room_for(value),
        recorded_under(data_with(data, timestamp, key, value), timestamp, key).has_room_for(other_value),
    ensures
        recorded_under(data, timestamp, key).has_room_for(other_value),
        recorded_under(data_with(data, timestamp, key, other_value), timestamp, key).has_room_for(value),
        data_with(data_with(data, timestamp, key, value), timestamp, key, other_value) == data_with(
            data_with(data, timestamp, key, other_value),
            timestamp,
            key,
            value,
        ),
{
    law_values_commute(recorded_under(data, timestamp, key), value, other_value);
    let one = data_with(data_with(data, timestamp, key, value), timestamp, key, other_value);
    let two = data_with(data_with(data, timestamp, key, other_value), timestamp, key, value);
    assert(one[timestamp] =~= two[timestamp]);
    assert(one =~= two);
}

/// Sending in two steps sends the same: the batch of a send up to a time, followed by that of a send
/// up to a later time, is a batch of a single send up to the later time.
pub proof fn law_two_sends_make_one(
    data: Data,
    first: Timestamp,
    second: Timestamp,
    config: CollectorConfig,
    first_metrics: Seq<MetricDatumView>,
    second_metrics: Seq<MetricDatumView>,
)
    requires
        first <= second,
        is_batch_of(first_metrics, config, data_before(data, first)),
        is_batch_of(second_metrics, config, data_before(data_since(data, first), second)),
    ensures
        is_batch_of(first_metrics + second_metrics, config, data_before(data, second)),
        data_since(data_since(data, first), second) == data_since(data, second),
{
    let early = data_before(data, first);
    let late = data_before(data_since(data, first), second);
    let whole = data_before(data, second);
    let a = choose|entries: Seq<Entry>| #[trigger]
        lists(entries, early) && first_metrics == entries_metrics(config, entries);
    let b = choose|entries: Seq<Entry>| #[trigger]
        lists(entries, late) && second_metrics == entries_metrics(config, entries);
    let all = a + b;
    assert forall|i: int| 0 <= i < all.len() implies is_entry_of(#[trigger] all[i], whole) by {
        if i < a.len() {
            assert(is_entry_of(a[i], early));
        } else {
            assert(is_entry_of(b[i - a.len()], late));
        }
    }
    assert forall|i: int, j: int| 0 <= i < j < all.len() implies {
        ||| (#[trigger] all[i]).timestamp < (#[trigger] all[j]).timestamp
        ||| all[i].timestamp == all[j].timestamp && all[i].key != all[j].key
    } by {
        if j < a.len() {
            assert(all[i] == a[i] && all[j] == a[j]);
        } else if i >= a.len() {
            assert(all[i] == b[i - a.len()] && all[j] == b[j - a.len()]);
        } else {
            assert(is_entry_of(a[i], early));
            assert(is_entry_of(b[j - a.len()], late));
        }
    }
    assert forall|timestamp: Timestamp, key: KeyView|
        whole.contains_key(timestamp) && #[trigger] whole[timestamp].contains_key(key) implies exists|i: int|
        0 <= i < all.len() && (#[trigger] all[i]).timestamp == timestamp && all[i].key == key by {
        if timestamp < first {
            assert(early.contains_key(timestamp) && early[timestamp].contains_key(key));
            let i = choose|i: int| 0 <= i < a.len() && (#[trigger] a[i]).timestamp == timestamp && a[i].key == key;
            assert(all[i] == a[i]);
        } else {
            assert(late.contains_key(timestamp) && late[timestamp].contains_key(key));
            let i = choose|i: int| 0 <= i < b.len() && (#[trigger] b[i]).timestamp == timestamp && b[i].key == key;
            assert(all[a.len() + i] == b[i]);
        }
    }
    assert(lists(all, whole));
    lemma_entries_metrics_concat(config, a, b);
    assert(data_since(data_since(data, first), second) =~= data_since(data, second));
}

/// A send splits the data: what it takes and what stays make up what there was.
pub proof fn law_send_splits_the_data(data: Data, limit: Timestamp)
    ensures
        data_before(data, limit).union_prefer_right(data_since(data, limit)) == data,
        data_before(data, limit).dom().disjoint(data_since(data, limit).dom()),
{
    assert(data_before(data, limit).union_prefer_right(data_since(data, limit)) =~= data);
}

/// A send leaves nothing for another one up to the same time.
pub proof fn law_send_takes_all_before_its_limit(data: Data, limit: Timestamp)
    ensures
        data_before(data_since(data, limit), limit) == Data::empty(),
        data_since(data_since(data, limit), limit) == data_since(data, limit),
{
    assert(data_before(data_since(data, limit), limit) =~= Data::empty());
    assert(data_since(data_since(data, limit), limit) =~= data_since(data, limit));
}

/// The last send takes everything, but for what was recorded at the very last timestamp there is.
pub proof fn law_final_send_takes_everything(data: Data)
    requires
        !data.contains_key(Timestamp::MAX),
    ensures
        data_before(data, Timestamp::MAX) == data,
        data_since(data, Timestamp::MAX) == Data::empty(),
{
    assert(data_before(data, Timestamp::MAX) =~= data);
    assert(data_since(data, Timestamp::MAX) =~= Data::empty());
}

/// A regular send takes nothing of what is recorded when it happens or later.
pub proof fn law_regular_send_keeps_what_is_current(
    data: Data,
    now: Timestamp,
    timestamp: Timestamp,
    resolution: Resolution,
    key: KeyView,
)
    requires
        period_start(now, resolution) >= 1,
        now <= timestamp,
    ensures
        recorded_under(
            data_since(data, (period_start(now, resolution) - 1) as Timestamp),
            period_start(timestamp, resolution) as Timestamp,
            key,
        ) == recorded_under(data, period_start(timestamp, resolution) as Timestamp, key),
{
    law_send_limit_spares_the_current_period(now, timestamp, resolution);
}

/// The default dimensions come first, then the labels of the key in their order, and there are as
/// many of both as there is room for.
pub proof fn law_default_dimensions_come_first(config: CollectorConfig, key: KeyView)
    ensures
        dimensions_of(config, key).len() <= MAX_CLOUDWATCH_DIMENSIONS,
        dimensions_of(config, key).len() == MAX_CLOUDWATCH_DIMENSIONS || dimensions_of(config, key).len()
            == config.dimensions().len() + key.labels.len(),
        forall|i: int|
            0 <= i < dimensions_of(config, key).len() && i < config.dimensions().len() ==> #[trigger] dimensions_of(
                config,
                key,
            )[i] == config.dimensions()[i],
        forall|i: int|
            config.dimensions().len() <= i < dimensions_of(config, key).len() ==> #[trigger] dimensions_of(
                config,
                key,
            )[i] == key.labels[i - config.dimensions().len()],
{
}

/// A metric of a list of entries is a metric of one of them, and the other way round.
proof fn lemma_entries_metrics(config: CollectorConfig, entries: Seq<Entry>, metric: MetricDatumView)
    ensures
        entries_metrics(config, entries).contains(metric) <==> exists|i: int|
            0 <= i < entries.len() && entry_metrics(config, #[trigger] entries[i]).contains(metric),
    decreases entries.len(),
{
    let all = entries_metrics(config, entries);
    if entries.len() > 0 {
        let init = entries.drop_last();
        let front = entries_metrics(config, init);
        let back = entry_metrics(config, entries.last());
        lemma_entries_metrics(config, init, metric);
        assert(all == front + back);
        if all.contains(metric) {
            let k = choose|k: int| 0 <= k < all.len() && all[k] == metric;
            if k < front.len() {
                assert(front[k] == metric);
                let i = choose|i: int|
                    0 <= i < init.len() && entry_metrics(config, #[trigger] init[i]).contains(metric);
                assert(entries[i] == init[i]);
            } else {
                assert(back[k - front.len()] == metric);
                assert(entries[entries.len() - 1] == entries.last());
            }
        }
        if exists|i: int| 0 <= i < entries.len() && entry_metrics(config, #[trigger] entries[i]).contains(metric) {
            let i = choose|i: int|
                0 <= i < entries.len() && entry_metrics(config, #[trigger] entries[i]).contains(metric);
            if i < init.len() {
                assert(init[i] == entries[i]);
                let k = choose|k: int| 0 <= k < front.len() && front[k] == metric;
                assert(all[k] == metric);
            } else {
                let k = choose|k: int| 0 <= k < back.len() && back[k] == metric;
                assert(all[front.len() + k] == metric);
            }
        }
    }
}

/// Whether a metric shows what was recorded under some key in some period.
pub open spec fn is_metric_of(metric: MetricDatumView, config: CollectorConfig, data: Data) -> bool {
    exists|entry: Entry| #[trigger] is_entry_of(entry, data) && entry_metrics(config, entry).contains(metric)
}

/// A batch shows nothing but what was recorded.
pub proof fn law_batch_shows_only_the_data(metrics: Seq<MetricDatumView>, config: CollectorConfig, data: Data, i: int)
    requires
        is_batch_of(metrics, config, data),
        0 <= i < metrics.len(),
    ensures
        is_metric_of(metrics[i], config, data),
{
    let entries = choose|entries: Seq<Entry>| #[trigger]
        lists(entries, data) && metrics == entries_metrics(config, entries);
    lemma_entries_metrics(config, entries, metrics[i]);
    assert(metrics.contains(metrics[i]));
    let k = choose|k: int|
        0 <= k < entries.len() && entry_metrics(config, #[trigger] entries[k]).contains(metrics[i]);
    assert(is_entry_of(entries[k], data));
}

/// A batch shows all that was recorded under a key in a period: the counter and the gauge, each in a
/// metric of its own, unless nothing was recorded for it.
pub proof fn law_batch_shows_counters_and_gauges(
    metrics: Seq<MetricDatumView>,
    config: CollectorConfig,
    data: Data,
    timestamp: Timestamp,
    key: KeyView,
)
    requires
        is_batch_of(metrics, config, data),
        data.contains_key(timestamp),
        data[timestamp].contains_key(key),
    ensures
        data[timestamp][key].counter.sample_count > 0 ==> metrics.contains(
            (MetricDatumView {
                statistic_values: Some(counter_set(data[timestamp][key].counter)),
                unit: Some("Count"@),
                ..bare_metric(config, rfc3339_millis(timestamp), key)
            }),
        ),
        data[timestamp][key].gauge.sample_count > 0 ==> metrics.contains(
            (MetricDatumView {
                statistic_values: Some(data[timestamp][key].gauge),
                ..bare_metric(config, rfc3339_millis(timestamp), key)
            }),
        ),
{
    let entry = lemma_listed(metrics, config, data, timestamp, key);
    let text = rfc3339_millis(timestamp);
    let counters = counter_metrics(config, text, key, entry.counter);
    let gauges = gauge_metrics(config, text, key, entry.gauge);
    let own = entry_metrics(config, entry);
    if entry.counter.sample_count > 0 {
        assert(own[0] == counters[0]);
        assert(own.contains(counters[0]));
    }
    if entry.gauge.sample_count > 0 {
        assert(own[counters.len() as int] == gauges[0]);
        assert(own.contains(gauges[0]));
    }
}

/// A batch shows every sample that was recorded under a key in a period, with its count.
pub proof fn law_batch_shows_samples(
    metrics: Seq<MetricDatumView>,
    config: CollectorConfig,
    data: Data,
    timestamp: Timestamp,
    key: KeyView,
    sample: HistogramValue,
)
    requires
        is_batch_of(metrics, config, data),
        data.contains_key(timestamp),
        data[timestamp].contains_key(key),
        data[timestamp][key].histogram.contains_key(sample),
    ensures
        exists|part: Seq<(HistogramValue, Count)>, i: int|
            {
                &&& 0 <= i < part.len() <= MAX_HISTOGRAM_VALUES
                &&& #[trigger] part[i] == (sample, data[timestamp][key].histogram[sample])
                &&& metrics.contains(part_metric(config, rfc3339_millis(timestamp), key, part))
            },
{
    let entry = lemma_listed(metrics, config, data, timestamp, key);
    let text = rfc3339_millis(timestamp);
    let pair = (sample, data[timestamp][key].histogram[sample]);
    law_parts_lose_nothing(entry.walk);
    law_parts_are_full(entry.walk);
    assert(entry.walk.contains(pair));
    let (p, i) = lemma_flatten_contains(parts(entry.walk), pair);
    let part = parts(entry.walk)[p];
    let own = entry_metrics(config, entry);
    let offset = counter_metrics(config, text, key, entry.counter).len() + gauge_metrics(
        config,
        text,
        key,
        entry.gauge,
    ).len();
    assert(own[offset + p] == histogram_metrics(config, text, key, entry.walk)[p]);
    assert(own[offset + p] == part_metric(config, text, key, part));
    assert(own.contains(part_metric(config, text, key, part)));
    assert(part[i] == pair);
}

proof fn lemma_flatten_contains<A>(s: Seq<Seq<A>>, a: A) -> (place: (int, int))
    requires
        s.flatten().contains(a),
    ensures
        0 <= place.0 < s.len(),
        0 <= place.1 < s[place.0].len(),
        s[place.0][place.1] == a,
    decreases s.len(),
{
    let k = choose|k: int| 0 <= k < s.flatten().len() && s.flatten()[k] == a;
    if k < s.first().len() {
        (0, k)
    } else {
        assert(s.drop_first().flatten()[k - s.first().len()] == a);
        let rest = lemma_flatten_contains(s.drop_first(), a);
        (rest.0 + 1, rest.1)
    }
}

/// The entry of a key in a period, all of whose metrics are in the batch.
proof fn lemma_listed(
    metrics: Seq<MetricDatumView>,
    config: CollectorConfig,
    data: Data,
    timestamp: Timestamp,
    key: KeyView,
) -> (entry: Entry)
    requires
        is_batch_of(metrics, config, data),
        data.contains_key(timestamp),
        data[timestamp].contains_key(key),
    ensures
        is_entry_of(entry, data),
        entry.timestamp == timestamp,
        entry.key == key,
        forall|metric: MetricDatumView| #[trigger]
            entry_metrics(config, entry).contains(metric) ==> metrics.contains(metric),
{
    let entries = choose|entries: Seq<Entry>| #[trigger]
        lists(entries, data) && metrics == entries_metrics(config, entries);
    let i = choose|i: int|
        0 <= i < entries.len() && (#[trigger] entries[i]).timestamp == timestamp && entries[i].key == key;
    assert(is_entry_of(entries[i], data));
    assert forall|metric: MetricDatumView| #[trigger]
        entry_metrics(config, entries[i]).contains(metric) implies metrics.contains(metric) by {
        lemma_entries_metrics(config, entries, metric);
    }
    entries[i]
}

/// What is recorded under a key is sent: the batch of the next send that is due shows it, summed up
/// with what was recorded under the key in the same period before.
pub proof fn law_what_is_recorded_is_sent(
    data: Data,
    timestamp: Timestamp,
    key: KeyView,
    value: Value,
    limit: Timestamp,
    config: CollectorConfig,
    metrics: Seq<MetricDatumView>,
)
    requires
        timestamp < limit,
        recorded_under(data, timestamp, key).is_valid(),
        recorded_under(data, timestamp, key).has_room_for(value),
        is_batch_of(metrics, config, data_before(data_with(data, timestamp, key, value), limit)),
    ensures
        ({
            let kept = recorded_under(data, timestamp, key).with(value);
            match value {
                Value::Counter(_) => metrics.contains(
                    (MetricDatumView {
                        statistic_values: Some(counter_set(kept.counter)),
                        unit: Some("Count"@),
                        ..bare_metric(config, rfc3339_millis(timestamp), key)
                    }),
                ),
                Value::Gauge(_) => metrics.contains(
                    (MetricDatumView {
                        statistic_values: Some(kept.gauge),
                        ..bare_metric(config, rfc3339_millis(timestamp), key)
                    }),
                ),
                Value::Histogram(sample) => exists|part: Seq<(HistogramValue, Count)>, i: int|
                    {
                        &&& 0 <= i < part.len() <= MAX_HISTOGRAM_VALUES
                        &&& #[trigger] part[i] == (sample, kept.histogram[sample])
                        &&& metrics.contains(part_metric(config, rfc3339_millis(timestamp), key, part))
                    },
            }
        }),
{
    let due = data_before(data_with(data, timestamp, key, value), limit);
    let before = recorded_under(data, timestamp, key);
    assert(due[timestamp][key] == before.with(value));
    match value {
        Value::Histogram(sample) => {
            law_batch_shows_samples(metrics, config, due, timestamp, key, sample);
        },
        Value::Gauge(_) => {
            lemma_count_stays_in_range(before.gauge.sample_count as int);
            law_batch_shows_counters_and_gauges(metrics, config, due, timestamp, key);
        },
        Value::Counter(_) => {
            law_batch_shows_counters_and_gauges(metrics, config, due, timestamp, key);
        },
    }
}

/// Whether a metric keeps to what CloudWatch accepts: so many dimensions, so many distinct values,
/// and a count for each of these.
pub open spec fn is_acceptable(metric: MetricDatumView) -> bool {
    &&& metric.dimensions matches Some(dimensions) && dimensions.len() <= MAX_CLOUDWATCH_DIMENSIONS
    &&& metric.values is Some <==> metric.counts is Some
    &&& metric.values is Some <==> metric.statistic_values is None
    &&& metric.values matches Some(values) ==> 0 < values.len() <= MAX_HISTOGRAM_VALUES && values.len()
        == metric.counts->0.len()
}

proof fn lemma_entry_metrics_acceptable(config: CollectorConfig, entry: Entry, metric: MetricDatumView)
    requires
        entry_metrics(config, entry).contains(metric),
    ensures
        is_acceptable(metric),
{
    let text = rfc3339_millis(entry.timestamp);
    let own = entry_metrics(config, entry);
    let counters = counter_metrics(config, text, entry.key, entry.counter);
    let gauges = gauge_metrics(config, text, entry.key, entry.gauge);
    let k = choose|k: int| 0 <= k < own.len() && own[k] == metric;
    law_default_dimensions_come_first(config, entry.key);
    law_parts_are_full(entry.walk);
    let offset = counters.len() + gauges.len();
    if k >= offset {
        let part = parts(entry.walk)[k - offset];
        assert(metric == part_metric(config, text, entry.key, part));
        assert(values_of(part).len() == part.len() && counts_of(part).len() == part.len());
    } else if k < counters.len() {
        assert(metric == counters[k]);
    } else {
        assert(metric == gauges[k - counters.len()]);
    }
}

/// Every metric of a batch keeps to what CloudWatch accepts.
pub proof fn law_batch_is_acceptable(metrics: Seq<MetricDatumView>, config: CollectorConfig, data: Data, i: int)
    requires
        is_batch_of(metrics, config, data),
        0 <= i < metrics.len(),
    ensures
        is_acceptable(metrics[i]),
        size(metrics[i]) <= MAX_CW_METRICS_PUT_SIZE,
{
    law_batch_shows_only_the_data(metrics, config, data, i);
    let entry = choose|entry: Entry| #[trigger]
        is_entry_of(entry, data) && entry_metrics(config, entry).contains(metrics[i]);
    lemma_entry_metrics_acceptable(config, entry, metrics[i]);
}

/// A batch is sent whole: the requests for it hold all of its metrics, in their order.
pub proof fn law_batch_is_sent_whole(metrics: Seq<MetricDatumView>, config: CollectorConfig, data: Data)
    requires
        is_batch_of(metrics, config, data),
    ensures
        chunks(metrics).flatten() == metrics,
{
    assert forall|i: int| 0 <= i < metrics.len() implies size(#[trigger] metrics[i]) <= MAX_CW_METRICS_PUT_SIZE by {
        law_batch_is_acceptable(metrics, config, data, i);
    }
    law_chunks_lose_nothing(metrics);
}

/// Whether all the numbers of a metric are doubles.
pub open spec fn has_doubles(metric: MetricDatumView) -> bool {
    &&& metric.value is None
    &&& metric.statistic_values matches Some(set) ==> {
        &&& is_double(set.sample_count as int)
        &&& is_double(set.sum as int)
        &&& is_double(set.maximum as int)
        &&& is_double(set.minimum as int)
    }
    &&& metric.values matches Some(values) ==> forall|i: int|
        0 <= i < values.len() ==> is_double(#[trigger] values[i] as int)
    &&& metric.counts matches Some(counts) ==> forall|i: int|
        0 <= i < counts.len() ==> is_double(#[trigger] counts[i] as int)
}

proof fn lemma_rounded_is_double(n: int)
    requires
        0 <= n <= u64::MAX,
    ensures
        is_double(rounded(n) as i128 as int),
{
    lemma_rounded_word(n);
    law_conversion_is_idempotent(n);
}

/// The numbers of a batch of valid data are doubles.
pub proof fn law_batch_holds_doubles(metrics: Seq<MetricDatumView>, config: CollectorConfig, data: Data, i: int)
    requires
        is_batch_of(metrics, config, data),
        0 <= i < metrics.len(),
        forall|timestamp: Timestamp, key: KeyView|
            data.contains_key(timestamp) && #[trigger] data[timestamp].contains_key(key) ==> data[timestamp][key].is_valid(),
    ensures
        has_doubles(metrics[i]),
{
    law_batch_shows_only_the_data(metrics, config, data, i);
    let metric = metrics[i];
    let entry = choose|entry: Entry| #[trigger]
        is_entry_of(entry, data) && entry_metrics(config, entry).contains(metric);
    let text = rfc3339_millis(entry.timestamp);
    let own = entry_metrics(config, entry);
    let counters = counter_metrics(config, text, entry.key, entry.counter);
    let gauges = gauge_metrics(config, text, entry.key, entry.gauge);
    let k = choose|k: int| 0 <= k < own.len() && own[k] == metric;
    let offset = counters.len() + gauges.len();
    if k >= offset {
        let part = parts(entry.walk)[k - offset];
        assert(metric == part_metric(config, text, entry.key, part));
        assert forall|j: int| 0 <= j < values_of(part).len() implies is_double(#[trigger] values_of(part)[j] as int) by {
            lemma_rounded_is_double(part[j].0 as int);
        }
        assert forall|j: int| 0 <= j < counts_of(part).len() implies is_double(#[trigger] counts_of(part)[j] as int) by {
            lemma_rounded_is_double(part[j].1 as int);
        }
    } else if k < counters.len() {
        assert(metric == counters[k]);
        lemma_rounded_is_double(entry.counter.sum as int);
        lemma_rounded_is_double(entry.counter.sample_count as int);
    } else {
        assert(metric == gauges[k - counters.len()]);
        assert(gauge_is_valid(entry.gauge));
    }
}

} // verus!
