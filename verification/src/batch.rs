//! The metrics that CloudWatch gets of what was recorded.
use crate::aggregate::{AggregateView, Count, Counter, HistogramValue};
use crate::config::CollectorConfig;
use crate::double::{lemma_rounded_word, rounded, to_double};
use crate::histogram::{counts_of, histogram_parts, is_walk, parts, values_of, Histogram};
use crate::metric::{
    copy_dimensions, dimension_views, metric_views, Dimension, Key, KeyView, Label, MetricDatum, MetricDatumView,
    PairView, StatisticSet,
};
use crate::time::{period, rfc3339_millis, Timestamp};
use vstd::prelude::*;

verus! {

/// The most dimensions that a metric has.
pub const MAX_CLOUDWATCH_DIMENSIONS: usize = 10;

/// What was recorded in each period, by its first second and by key.
pub type Data = Map<Timestamp, Map<KeyView, AggregateView>>;

/// The dimensions of a metric: the default ones and then the labels of its key, as far as there is
/// room.
pub open spec fn dimensions_of(config: CollectorConfig, key: KeyView) -> Seq<PairView> {
    let all = config.dimensions() + key.labels;
    if all.len() <= MAX_CLOUDWATCH_DIMENSIONS {
        all
    } else {
        all.take(MAX_CLOUDWATCH_DIMENSIONS as int)
    }
}

/// What all metrics of one key in one period have in common.
pub open spec fn bare_metric(config: CollectorConfig, timestamp: Seq<char>, key: KeyView) -> MetricDatumView {
    MetricDatumView {
        counts: None,
        dimensions: Some(dimensions_of(config, key)),
        metric_name: key.name,
        statistic_values: None,
        storage_resolution: Some(period(config.resolution()) as i64),
        timestamp: Some(timestamp),
        unit: None,
        value: None,
        values: None,
    }
}

/// The summary of a counter. Its extremes are the sum: what this process counted in the period.
pub open spec fn counter_set(counter: Counter) -> StatisticSet {
    let sum = rounded(counter.sum as int) as i128;
    StatisticSet { sample_count: rounded(counter.sample_count as int) as i128, sum, maximum: sum, minimum: sum }
}

/// The metric of a counter, unless nothing was counted.
pub open spec fn counter_metrics(
    config: CollectorConfig,
    timestamp: Seq<char>,
    key: KeyView,
    counter: Counter,
) -> Seq<MetricDatumView> {
    if counter.sample_count > 0 {
        seq![
            MetricDatumView {
                statistic_values: Some(counter_set(counter)),
                unit: Some("Count"@),
                ..bare_metric(config, timestamp, key)
            },
        ]
    } else {
        Seq::empty()
    }
}

/// The metric of a gauge, unless there was no reading.
pub open spec fn gauge_metrics(
    config: CollectorConfig,
    timestamp: Seq<char>,
    key: KeyView,
    gauge: StatisticSet,
) -> Seq<MetricDatumView> {
    if gauge.sample_count > 0 {
        seq![MetricDatumView { statistic_values: Some(gauge), ..bare_metric(config, timestamp, key) }]
    } else {
        Seq::empty()
    }
}

/// The metric of one part of a histogram.
pub open spec fn part_metric(
    config: CollectorConfig,
    timestamp: Seq<char>,
    key: KeyView,
    part: Seq<(HistogramValue, Count)>,
) -> MetricDatumView {
    MetricDatumView {
        values: Some(values_of(part)),
        counts: Some(counts_of(part)),
        ..bare_metric(config, timestamp, key)
    }
}

/// The metrics of a histogram whose entries are walked in the given order.
pub open spec fn histogram_metrics(
    config: CollectorConfig,
    timestamp: Seq<char>,
    key: KeyView,
    walk: Seq<(HistogramValue, Count)>,
) -> Seq<MetricDatumView> {
    parts(walk).map_values(|part: Seq<(HistogramValue, Count)>| part_metric(config, timestamp, key, part))
}

/// The metrics of what was recorded under one key in one period: of the counter, then of the gauge,
/// then of the histogram.
pub open spec fn key_metrics(
    config: CollectorConfig,
    timestamp: Seq<char>,
    key: KeyView,
    counter: Counter,
    gauge: StatisticSet,
    walk: Seq<(HistogramValue, Count)>,
) -> Seq<MetricDatumView> {
    counter_metrics(config, timestamp, key, counter) + gauge_metrics(config, timestamp, key, gauge) + histogram_metrics(
        config,
        timestamp,
        key,
        walk,
    )
}

/// What was recorded under one key in one period, with the entries of its histogram in some order.
pub struct Entry {
    pub timestamp: Timestamp,
    pub key: KeyView,
    pub counter: Counter,
    pub gauge: StatisticSet,
    pub walk: Seq<(HistogramValue, Count)>,
}

/// The metrics of an entry.
pub open spec fn entry_metrics(config: CollectorConfig, entry: Entry) -> Seq<MetricDatumView> {
    key_metrics(config, rfc3339_millis(entry.timestamp), entry.key, entry.counter, entry.gauge, entry.walk)
}

/// The metrics of a sequence of entries, one entry after another.
pub open spec fn entries_metrics(config: CollectorConfig, entries: Seq<Entry>) -> Seq<MetricDatumView>
    decreases entries.len(),
{
    if entries.len() == 0 {
        Seq::empty()
    } else {
        entries_metrics(config, entries.drop_last()) + entry_metrics(config, entries.last())
    }
}

/// Whether an entry shows what was recorded under its key in its period.
pub open spec fn is_entry_of(entry: Entry, data: Data) -> bool {
    &&& data.contains_key(entry.timestamp)
    &&& data[entry.timestamp].contains_key(entry.key)
    &&& data[entry.timestamp][entry.key].counter == entry.counter
    &&& data[entry.timestamp][entry.key].gauge == entry.gauge
    &&& is_walk(entry.walk, data[entry.timestamp][entry.key].histogram)
}

/// Whether a sequence lists all that was recorded: each key of each period once, the periods in the
/// order of time, the keys of a period in any order.
pub open spec fn lists(entries: Seq<Entry>, data: Data) -> bool {
    &&& forall|i: int| 0 <= i < entries.len() ==> is_entry_of(#[trigger] entries[i], data)
    &&& forall|i: int, j: int|
        0 <= i < j < entries.len() ==> {
            ||| (#[trigger] entries[i]).timestamp < (#[trigger] entries[j]).timestamp
            ||| entries[i].timestamp == entries[j].timestamp && entries[i].key != entries[j].key
        }
    &&& forall|timestamp: Timestamp, key: KeyView|
        data.contains_key(timestamp) && #[trigger] data[timestamp].contains_key(key) ==> exists|i: int|
            0 <= i < entries.len() && (#[trigger] entries[i]).timestamp == timestamp && entries[i].key == key
}

/// Whether a sequence of metrics is what CloudWatch gets of the data.
pub open spec fn is_batch_of(metrics: Seq<MetricDatumView>, config: CollectorConfig, data: Data) -> bool {
    exists|entries: Seq<Entry>| #[trigger] lists(entries, data) && metrics == entries_metrics(config, entries)
}

pub(crate) proof fn lemma_entries_metrics_concat(config: CollectorConfig, first: Seq<Entry>, second: Seq<Entry>)
    ensures
        entries_metrics(config, first + second) == entries_metrics(config, first) + entries_metrics(config, second),
    decreases second.len(),
{
    if second.len() == 0 {
        assert(first + second =~= first);
    } else {
        assert((first + second).drop_last() =~= first + second.drop_last());
        lemma_entries_metrics_concat(config, first, second.drop_last());
    }
    assert(entries_metrics(config, first + second) =~= entries_metrics(config, first) + entries_metrics(
        config,
        second,
    ));
}

/// The dimensions of a metric: the default ones and then the labels of its key, as far as there is
/// room.
pub(crate) fn metric_dimensions(config: &CollectorConfig, key: &Key) -> (dimensions: Vec<Dimension>)
    ensures
        dimension_views(dimensions@) == dimensions_of(*config, key@),
{
    let mut dimensions = config.default_dimensions();
    let ghost all = config.dimensions() + key@.labels;
    if dimensions.len() > MAX_CLOUDWATCH_DIMENSIONS {
        dimensions.truncate(MAX_CLOUDWATCH_DIMENSIONS);
        assert(dimension_views(dimensions@) =~= all.take(MAX_CLOUDWATCH_DIMENSIONS as int));
        return dimensions;
    }
    let ghost defaults = dimensions@.len();
    assert(dimension_views(dimensions@) =~= all.take(defaults as int));
    let mut i: usize = 0;
    while i < key.labels.len() && dimensions.len() < MAX_CLOUDWATCH_DIMENSIONS
        invariant
            i <= key.labels@.len(),
            all == config.dimensions() + key@.labels,
            defaults == config.dimensions().len(),
            dimensions@.len() == defaults + i,
            dimensions@.len() <= MAX_CLOUDWATCH_DIMENSIONS,
            dimension_views(dimensions@) == all.take(defaults + i),
        decreases key.labels@.len() - i,
    {
        let label: &Label = &key.labels[i];
        dimensions.push(Dimension { name: label.key.clone(), value: label.value.clone() });
        i = i + 1;
        assert(dimension_views(dimensions@) =~= all.take(defaults + i));
    }
    assert(all.take(all.len() as int) =~= all);
    dimensions
}

/// What all metrics of one key in one period have in common.
fn new_metric(
    config: &CollectorConfig,
    timestamp: &String,
    key: &Key,
    dimensions: &Vec<Dimension>,
) -> (metric: MetricDatum)
    requires
        dimension_views(dimensions@) == dimensions_of(*config, key@),
    ensures
        metric@ == bare_metric(*config, timestamp@, key@),
{
    MetricDatum {
        counts: None,
        dimensions: Some(copy_dimensions(dimensions)),
        metric_name: key.name.clone(),
        statistic_values: None,
        storage_resolution: Some(config.storage_resolution().as_secs()),
        timestamp: Some(timestamp.clone()),
        unit: None,
        value: None,
        values: None,
    }
}

/// The summary of a counter. Its extremes are the sum. They could be those of the single increments
/// instead, but where each increment is one, these would always be one; where increments are summed
/// up before they are recorded, a gauge serves better.
pub fn counter_statistics(counter: Counter) -> (set: StatisticSet)
    ensures
        set == counter_set(counter),
{
    proof {
        lemma_rounded_word(counter.sum as int);
        lemma_rounded_word(counter.sample_count as int);
    }
    let sum: i128 = to_double(counter.sum as i128);
    StatisticSet { sample_count: to_double(counter.sample_count as i128), sum, maximum: sum, minimum: sum }
}

/// The metrics of what was recorded under one key in the period with the given timestamp, where the
/// entries of the histogram come in the given order.
pub fn metrics_for_key(
    config: &CollectorConfig,
    timestamp: &String,
    key: &Key,
    counter: Counter,
    gauge: StatisticSet,
    walk: &Vec<(HistogramValue, Count)>,
) -> (metrics: Vec<MetricDatum>)
    ensures
        metric_views(metrics@) == key_metrics(*config, timestamp@, key@, counter, gauge, walk@),
{
    let dimensions = metric_dimensions(config, key);
    let mut metrics: Vec<MetricDatum> = Vec::new();
    if counter.sample_count > 0 {
        let mut metric = new_metric(config, timestamp, key, &dimensions);
        metric.statistic_values = Some(counter_statistics(counter));
        metric.unit = Some("Count".to_owned());
        metrics.push(metric);
    }
    assert(metric_views(metrics@) =~= counter_metrics(*config, timestamp@, key@, counter));
    if gauge.sample_count > 0 {
        let mut metric = new_metric(config, timestamp, key, &dimensions);
        metric.statistic_values = Some(gauge);
        metrics.push(metric);
    }
    let ghost summaries = counter_metrics(*config, timestamp@, key@, counter) + gauge_metrics(
        *config,
        timestamp@,
        key@,
        gauge,
    );
    assert(metric_views(metrics@) =~= summaries);
    let histograms = histogram_parts(walk);
    let ghost all = histogram_metrics(*config, timestamp@, key@, walk@);
    assert(summaries + all.take(0) =~= summaries);
    for histogram in taken: histograms
        invariant
            taken.seq() == histograms@,
            histograms@.len() == parts(walk@).len(),
            forall|i: int|
                0 <= i < histograms@.len() ==> {
                    &&& (#[trigger] histograms@[i]).values@ == values_of(parts(walk@)[i])
                    &&& histograms@[i].counts@ == counts_of(parts(walk@)[i])
                },
            all == histogram_metrics(*config, timestamp@, key@, walk@),
            dimension_views(dimensions@) == dimensions_of(*config, key@),
            metric_views(metrics@) == summaries + all.take(taken.index()),
    {
        let mut metric = new_metric(config, timestamp, key, &dimensions);
        let Histogram { counts, values } = histogram;
        metric.values = Some(values);
        metric.counts = Some(counts);
        let ghost before = metric_views(metrics@);
        assert(metric@ == all[taken.index()]);
        metrics.push(metric);
        assert(metric_views(metrics@) =~= before.push(all[taken.index()]));
        assert(all.take(taken.index() + 1) =~= all.take(taken.index()).push(all[taken.index()]));
        assert(metric_views(metrics@) =~= summaries + all.take(taken.index() + 1));
    }
    assert(all.take(all.len() as int) =~= all);
    metrics
}

} // verus!
