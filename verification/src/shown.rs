//! What a batch shows of what was recorded, told by the fields of its metrics.
use crate::aggregate::HistogramValue;
use crate::batch::{
    counter_metrics, entries_metrics, entry_metrics, gauge_metrics, histogram_metrics, is_batch_of, is_entry_of, lists,
    Data, Entry,
};
use crate::config::CollectorConfig;
use crate::double::{lemma_rounded_word, rounded};
use crate::histogram::{
    law_part_shows_samples_and_counts, law_parts_are_runs, law_walk_passes_each_entry_once, parts,
};
use crate::metric::{KeyView, MetricDatumView};
use crate::time::{law_periods_are_seconds_and_minutes, rfc3339_millis, Resolution, Timestamp};
use vstd::prelude::*;

verus! {

/// Where a metric comes from: the period, by its first second, the key, and the samples that stand
/// behind its values.
pub struct Origin {
    pub timestamp: Timestamp,
    pub key: KeyView,
    pub samples: Seq<HistogramValue>,
}

/// How many metrics of an entry come before those of its histogram.
spec fn summaries(entry: Entry) -> int {
    (if entry.counter.sample_count > 0 {
        1int
    } else {
        0
    }) + (if entry.gauge.sample_count > 0 {
        1int
    } else {
        0
    })
}

/// The origin of a metric of an entry, by its place among them.
spec fn origin_at(entry: Entry, place: int) -> Origin {
    Origin {
        timestamp: entry.timestamp,
        key: entry.key,
        samples: if place < summaries(entry) {
            Seq::empty()
        } else {
            parts(entry.walk)[place - summaries(entry)].map_values(|pair: (HistogramValue, usize)| pair.0)
        },
    }
}

/// Which entry each metric of a list of entries comes from, and its place among the metrics of it.
proof fn lemma_places(config: CollectorConfig, entries: Seq<Entry>) -> (places: Seq<(int, int)>)
    ensures
        places.len() == entries_metrics(config, entries).len(),
        forall|k: int|
            0 <= k < places.len() ==> {
                &&& 0 <= (#[trigger] places[k]).0 < entries.len()
                &&& 0 <= places[k].1 < entry_metrics(config, entries[places[k].0]).len()
                &&& entries_metrics(config, entries)[k] == entry_metrics(config, entries[places[k].0])[places[k].1]
            },
        forall|k: int, l: int|
            0 <= k < l < places.len() ==> {
                ||| (#[trigger] places[k]).0 < (#[trigger] places[l]).0
                ||| places[k].0 == places[l].0 && places[k].1 < places[l].1
            },
        forall|e: int, j: int|
            0 <= e < entries.len() && 0 <= j < entry_metrics(config, entries[e]).len() ==> #[trigger] places.contains(
                (e, j),
            ),
    decreases entries.len(),
{
    if entries.len() == 0 {
        Seq::empty()
    } else {
        let init = entries.drop_last();
        let before = lemma_places(config, init);
        let last = entries.len() - 1;
        let count = entry_metrics(config, entries.last()).len();
        let added = Seq::new(count, |j: int| (last, j));
        let places = before + added;
        assert forall|k: int| 0 <= k < places.len() implies {
            &&& 0 <= (#[trigger] places[k]).0 < entries.len()
            &&& 0 <= places[k].1 < entry_metrics(config, entries[places[k].0]).len()
            &&& entries_metrics(config, entries)[k] == entry_metrics(config, entries[places[k].0])[places[k].1]
        } by {
            if k < before.len() {
                assert(places[k] == before[k]);
                assert(entries[before[k].0] == init[before[k].0]);
            } else {
                assert(places[k] == added[k - before.len()]);
            }
        }
        assert forall|k: int, l: int| 0 <= k < l < places.len() implies {
            ||| (#[trigger] places[k]).0 < (#[trigger] places[l]).0
            ||| places[k].0 == places[l].0 && places[k].1 < places[l].1
        } by {
            if k < before.len() {
                assert(places[k] == before[k]);
                if l < before.len() {
                    assert(places[l] == before[l]);
                }
            }
        }
        assert forall|e: int, j: int|
            0 <= e < entries.len() && 0 <= j < entry_metrics(config, entries[e]).len() implies #[trigger] places.contains(
            (e, j),
        ) by {
            if e < last {
                assert(init[e] == entries[e]);
                assert(before.contains((e, j)));
                let k = choose|k: int| 0 <= k < before.len() && before[k] == (e, j);
                assert(places[k] == (e, j));
            } else {
                assert(places[before.len() + j] == (e, j));
            }
        }
        places
    }
}

/// What a metric of an entry shows, by its place among them.
proof fn lemma_entry_metric(config: CollectorConfig, entry: Entry, data: Data, place: int)
    requires
        is_entry_of(entry, data),
        0 <= place < entry_metrics(config, entry).len(),
    ensures
        ({
            let metric = entry_metrics(config, entry)[place];
            let samples = origin_at(entry, place).samples;
            let aggregate = data[entry.timestamp][entry.key];
            let labels = entry.key.labels;
            let defaults = config.dimensions();
            &&& metric.metric_name == entry.key.name
            &&& metric.timestamp == Some(rfc3339_millis(entry.timestamp))
            &&& metric.storage_resolution == Some(
                match config.resolution() {
                    Resolution::Second => 1i64,
                    Resolution::Minute => 60i64,
                },
            )
            &&& metric.value is None
            &&& metric.dimensions matches Some(dimensions) && {
                &&& dimensions.len() == if defaults.len() + labels.len() < 10 {
                    (defaults.len() + labels.len()) as int
                } else {
                    10
                }
                &&& forall|d: int|
                    0 <= d < dimensions.len() ==> #[trigger] dimensions[d] == if d < defaults.len() {
                        defaults[d]
                    } else {
                        labels[d - defaults.len()]
                    }
            }
            &&& entry.counter.sample_count > 0 && place == 0 ==> {
                &&& metric.unit == Some("Count"@)
                &&& metric.values is None && metric.counts is None && samples.len() == 0
                &&& metric.statistic_values matches Some(set) && {
                    &&& set.sample_count == rounded(aggregate.counter.sample_count as int)
                    &&& set.sum == rounded(aggregate.counter.sum as int)
                    &&& set.maximum == set.sum
                    &&& set.minimum == set.sum
                }
            }
            &&& place < summaries(entry) && !(entry.counter.sample_count > 0 && place == 0) ==> {
                &&& aggregate.gauge.sample_count > 0
                &&& metric.unit is None
                &&& metric.values is None && metric.counts is None && samples.len() == 0
                &&& metric.statistic_values == Some(aggregate.gauge)
            }
            &&& place >= summaries(entry) ==> {
                &&& place - summaries(entry) < parts(entry.walk).len()
                &&& metric.unit is None && metric.statistic_values is None
                &&& metric.values matches Some(values) && metric.counts matches Some(counts) && {
                    &&& values.len() == samples.len() && counts.len() == samples.len()
                    &&& 0 < samples.len() <= 150
                    &&& place + 1 < entry_metrics(config, entry).len() ==> samples.len() == 150
                    &&& forall|i: int|
                        0 <= i < samples.len() ==> {
                            &&& aggregate.histogram.contains_key(#[trigger] samples[i])
                            &&& values[i] == rounded(samples[i] as int)
                            &&& counts[i] == rounded(aggregate.histogram[samples[i]] as int)
                        }
                }
            }
        }),
        entry_metrics(config, entry).len() == summaries(entry) + parts(entry.walk).len(),
{
    let text = rfc3339_millis(entry.timestamp);
    let counters = counter_metrics(config, text, entry.key, entry.counter);
    let gauges = gauge_metrics(config, text, entry.key, entry.gauge);
    let histograms = histogram_metrics(config, text, entry.key, entry.walk);
    let own = entry_metrics(config, entry);
    let offset = summaries(entry);
    law_periods_are_seconds_and_minutes(0, config.resolution());
    lemma_rounded_word(entry.counter.sum as int);
    lemma_rounded_word(entry.counter.sample_count as int);
    assert(own == counters + gauges + histograms);
    if place < counters.len() {
        assert(own[place] == counters[0]);
    } else if place < offset {
        assert(own[place] == gauges[0]);
    } else {
        let part = parts(entry.walk)[place - offset];
        let samples = origin_at(entry, place).samples;
        assert(own[place] == histograms[place - offset]);
        law_part_shows_samples_and_counts(part);
        law_parts_are_runs(entry.walk);
        assert forall|i: int| 0 <= i < samples.len() implies {
            &&& data[entry.timestamp][entry.key].histogram.contains_key(#[trigger] samples[i])
            &&& data[entry.timestamp][entry.key].histogram[samples[i]] == part[i].1
        } by {
            assert(parts(entry.walk)[place - offset][i] == entry.walk[150 * (place - offset) + i]);
        }
    }
}

/// Samples at different places of an entry are different.
proof fn lemma_samples_differ(entry: Entry, data: Data, place: int, a: int, other: int, b: int)
    requires
        is_entry_of(entry, data),
        summaries(entry) <= place <= other < summaries(entry) + parts(entry.walk).len(),
        0 <= a < origin_at(entry, place).samples.len(),
        0 <= b < origin_at(entry, other).samples.len(),
        place < other || a < b,
    ensures
        origin_at(entry, place).samples[a] != origin_at(entry, other).samples[b],
{
    let (p, q) = (place - summaries(entry), other - summaries(entry));
    law_parts_are_runs(entry.walk);
    assert(parts(entry.walk)[p][a] == entry.walk[150 * p + a]);
    assert(parts(entry.walk)[q][b] == entry.walk[150 * q + b]);
    assert(150 * p + a < 150 * q + b);
    assert(entry.walk[150 * p + a].0 != entry.walk[150 * q + b].0);
}

/// How the metrics at two places follow each other.
proof fn lemma_origins_in_order(
    config: CollectorConfig,
    data: Data,
    entries: Seq<Entry>,
    first: (int, int),
    second: (int, int),
)
    requires
        lists(entries, data),
        0 <= first.0 < entries.len(),
        0 <= second.0 < entries.len(),
        0 <= first.1 < entry_metrics(config, entries[first.0]).len(),
        0 <= second.1 < entry_metrics(config, entries[second.0]).len(),
        first.0 < second.0 || first.0 == second.0 && first.1 < second.1,
    ensures
        ({
            let this = origin_at(entries[first.0], first.1);
            let next = origin_at(entries[second.0], second.1);
            let metric = entry_metrics(config, entries[first.0])[first.1];
            let after = entry_metrics(config, entries[second.0])[second.1];
            &&& this.timestamp <= next.timestamp
            &&& this.timestamp == next.timestamp && this.key == next.key ==> {
                &&& after.unit is None
                &&& metric.unit is None ==> after.values is Some
                &&& metric.values is Some ==> this.samples.len() == 150
                &&& forall|a: int, b: int|
                    0 <= a < this.samples.len() && 0 <= b < next.samples.len() ==> #[trigger] this.samples[a]
                        != #[trigger] next.samples[b]
            }
        }),
{
    let (earlier, later) = (entries[first.0], entries[second.0]);
    assert(is_entry_of(earlier, data) && is_entry_of(later, data));
    lemma_entry_metric(config, earlier, data, first.1);
    lemma_entry_metric(config, later, data, second.1);
    if first.0 == second.0 {
        let (this, next) = (origin_at(earlier, first.1), origin_at(later, second.1));
        assert forall|a: int, b: int|
            0 <= a < this.samples.len() && 0 <= b < next.samples.len() implies #[trigger] this.samples[a]
            != #[trigger] next.samples[b] by {
            lemma_samples_differ(earlier, data, first.1, a, second.1, b);
        }
    }
}

/// The place among all metrics of the metric at a place of an entry.
proof fn lemma_placed(
    config: CollectorConfig,
    data: Data,
    entries: Seq<Entry>,
    places: Seq<(int, int)>,
    e: int,
    j: int,
) -> (k: int)
    requires
        lists(entries, data),
        0 <= e < entries.len(),
        0 <= j < summaries(entries[e]) + parts(entries[e].walk).len(),
        forall|e: int, j: int|
            0 <= e < entries.len() && 0 <= j < entry_metrics(config, entries[e]).len() ==> #[trigger] places.contains(
                (e, j),
            ),
        forall|k: int|
            0 <= k < places.len() ==> {
                &&& 0 <= (#[trigger] places[k]).0 < entries.len()
                &&& 0 <= places[k].1 < entry_metrics(config, entries[places[k].0]).len()
                &&& entries_metrics(config, entries)[k] == entry_metrics(config, entries[places[k].0])[places[k].1]
            },
    ensures
        0 <= k < places.len(),
        places[k] == (e, j),
        ({
            let metric = entries_metrics(config, entries)[k];
            &&& entries[e].counter.sample_count > 0 && j == 0 ==> metric.unit is Some
            &&& j < summaries(entries[e]) && !(entries[e].counter.sample_count > 0 && j == 0) ==> metric.unit is None
                && metric.statistic_values is Some
        }),
{
    assert(is_entry_of(entries[e], data));
    assert(entry_metrics(config, entries[e]).len() == summaries(entries[e]) + parts(entries[e].walk).len());
    assert(places.contains((e, j)));
    let k = choose|k: int| 0 <= k < places.len() && places[k] == (e, j);
    lemma_entry_metric(config, entries[e], data, j);
    k
}

/// A batch shows what was recorded, all of it, and nothing else. Each of its metrics has an origin, a
/// key and a period that something was recorded under and in, and carries
///
/// - the name of the key, the first second of the period as a date, the length of a period, and the
///   default dimensions followed by the labels of the key, up to ten;
/// - and, of what was recorded under the key in the period, either the counter, with the unit "Count":
///   the number of increments and what they add up to, which is the maximum and the minimum too; or
///   the gauge; or up to 150 samples, with the number of times that each was recorded at the same
///   place.
///
/// All numbers are the doubles nearest to what they show. The metrics come in the order of their
/// periods. Of one origin there is one metric for the counter if there were increments, then one for
/// the gauge if there were readings, and then as many as needed for the samples, each of which is
/// shown at one place.
#[verifier::rlimit(50)]
pub proof fn law_batch_shows_what_was_recorded(
    metrics: Seq<MetricDatumView>,
    config: CollectorConfig,
    data: Data,
) -> (origins: Seq<Origin>)
    requires
        is_batch_of(metrics, config, data),
    ensures
        origins.len() == metrics.len(),
        forall|i: int|
            0 <= i < metrics.len() ==> {
                let origin = #[trigger] origins[i];
                let metric = metrics[i];
                let labels = origin.key.labels;
                let defaults = config.dimensions();
                &&& data.contains_key(origin.timestamp) && data[origin.timestamp].contains_key(origin.key)
                &&& metric.metric_name == origin.key.name
                &&& metric.timestamp == Some(rfc3339_millis(origin.timestamp))
                &&& metric.storage_resolution == Some(
                    match config.resolution() {
                        Resolution::Second => 1i64,
                        Resolution::Minute => 60i64,
                    },
                )
                &&& metric.value is None
                &&& metric.dimensions matches Some(dimensions) && {
                    &&& dimensions.len() == if defaults.len() + labels.len() < 10 {
                        (defaults.len() + labels.len()) as int
                    } else {
                        10
                    }
                    &&& forall|d: int|
                        0 <= d < dimensions.len() ==> #[trigger] dimensions[d] == if d < defaults.len() {
                            defaults[d]
                        } else {
                            labels[d - defaults.len()]
                        }
                }
            },
        forall|i: int|
            0 <= i < metrics.len() ==> {
                let metric = metrics[i];
                let samples = (#[trigger] origins[i]).samples;
                let aggregate = data[origins[i].timestamp][origins[i].key];
                ||| {
                    &&& aggregate.counter.sample_count > 0
                    &&& metric.unit == Some("Count"@)
                    &&& metric.values is None && metric.counts is None && samples.len() == 0
                    &&& metric.statistic_values matches Some(set) && {
                        &&& set.sample_count == rounded(aggregate.counter.sample_count as int)
                        &&& set.sum == rounded(aggregate.counter.sum as int)
                        &&& set.maximum == set.sum
                        &&& set.minimum == set.sum
                    }
                }
                ||| {
                    &&& aggregate.gauge.sample_count > 0
                    &&& metric.unit is None
                    &&& metric.values is None && metric.counts is None && samples.len() == 0
                    &&& metric.statistic_values == Some(aggregate.gauge)
                }
                ||| {
                    &&& metric.unit is None && metric.statistic_values is None
                    &&& metric.values matches Some(values) && metric.counts matches Some(counts) && {
                        &&& values.len() == samples.len() && counts.len() == samples.len()
                        &&& 0 < samples.len() <= 150
                        &&& forall|j: int|
                            0 <= j < samples.len() ==> {
                                &&& aggregate.histogram.contains_key(#[trigger] samples[j])
                                &&& values[j] == rounded(samples[j] as int)
                                &&& counts[j] == rounded(aggregate.histogram[samples[j]] as int)
                            }
                    }
                }
            },
        forall|i: int, a: int, b: int|
            0 <= i < origins.len() && 0 <= a < b < origins[i].samples.len() ==> #[trigger] origins[i].samples[a]
                != #[trigger] origins[i].samples[b],
        forall|i: int, j: int|
            0 <= i < j < origins.len() ==> {
                let (this, next) = (#[trigger] origins[i], #[trigger] origins[j]);
                &&& this.timestamp <= next.timestamp
                &&& this.timestamp == next.timestamp && this.key == next.key ==> {
                    &&& metrics[j].unit is None
                    &&& metrics[i].unit is None ==> metrics[j].values is Some
                    &&& metrics[i].values is Some ==> this.samples.len() == 150
                    &&& forall|a: int, b: int|
                        0 <= a < this.samples.len() && 0 <= b < next.samples.len() ==> #[trigger] this.samples[a]
                            != #[trigger] next.samples[b]
                }
            },
        forall|timestamp: Timestamp, key: KeyView|
            data.contains_key(timestamp) && #[trigger] data[timestamp].contains_key(key) ==> {
                &&& data[timestamp][key].counter.sample_count > 0 ==> exists|i: int|
                    0 <= i < origins.len() && (#[trigger] origins[i]).timestamp == timestamp && origins[i].key == key
                        && metrics[i].unit is Some
                &&& data[timestamp][key].gauge.sample_count > 0 ==> exists|i: int|
                    0 <= i < origins.len() && (#[trigger] origins[i]).timestamp == timestamp && origins[i].key == key
                        && metrics[i].unit is None && metrics[i].statistic_values is Some
            },
        forall|timestamp: Timestamp, key: KeyView, sample: HistogramValue|
            data.contains_key(timestamp) && data[timestamp].contains_key(key)
                && #[trigger] data[timestamp][key].histogram.contains_key(sample) ==> exists|i: int|
                0 <= i < origins.len() && (#[trigger] origins[i]).timestamp == timestamp && origins[i].key == key
                    && origins[i].samples.contains(sample),
{
    let entries = choose|entries: Seq<Entry>| #[trigger]
        lists(entries, data) && metrics == entries_metrics(config, entries);
    let places = lemma_places(config, entries);
    let origins = Seq::new(places.len(), |i: int| origin_at(entries[places[i].0], places[i].1));
    assert forall|i: int| 0 <= i < metrics.len() implies {
        let origin = #[trigger] origins[i];
        let metric = metrics[i];
        let labels = origin.key.labels;
        let defaults = config.dimensions();
        &&& data.contains_key(origin.timestamp) && data[origin.timestamp].contains_key(origin.key)
        &&& metric.metric_name == origin.key.name
        &&& metric.timestamp == Some(rfc3339_millis(origin.timestamp))
        &&& metric.storage_resolution == Some(
            match config.resolution() {
                Resolution::Second => 1i64,
                Resolution::Minute => 60i64,
            },
        )
        &&& metric.value is None
        &&& metric.dimensions matches Some(dimensions) && {
            &&& dimensions.len() == if defaults.len() + labels.len() < 10 {
                (defaults.len() + labels.len()) as int
            } else {
                10
            }
            &&& forall|d: int|
                0 <= d < dimensions.len() ==> #[trigger] dimensions[d] == if d < defaults.len() {
                    defaults[d]
                } else {
                    labels[d - defaults.len()]
                }
        }
    } by {
        let entry = entries[places[i].0];
        assert(is_entry_of(entry, data));
        lemma_entry_metric(config, entry, data, places[i].1);
    }
    assert forall|i: int| 0 <= i < metrics.len() implies {
        let metric = metrics[i];
        let samples = (#[trigger] origins[i]).samples;
        let aggregate = data[origins[i].timestamp][origins[i].key];
        ||| {
            &&& aggregate.counter.sample_count > 0
            &&& metric.unit == Some("Count"@)
            &&& metric.values is None && metric.counts is None && samples.len() == 0
            &&& metric.statistic_values matches Some(set) && {
                &&& set.sample_count == rounded(aggregate.counter.sample_count as int)
                &&& set.sum == rounded(aggregate.counter.sum as int)
                &&& set.maximum == set.sum
                &&& set.minimum == set.sum
            }
        }
        ||| {
            &&& aggregate.gauge.sample_count > 0
            &&& metric.unit is None
            &&& metric.values is None && metric.counts is None && samples.len() == 0
            &&& metric.statistic_values == Some(aggregate.gauge)
        }
        ||| {
            &&& metric.unit is None && metric.statistic_values is None
            &&& metric.values matches Some(values) && metric.counts matches Some(counts) && {
                &&& values.len() == samples.len() && counts.len() == samples.len()
                &&& 0 < samples.len() <= 150
                &&& forall|j: int|
                    0 <= j < samples.len() ==> {
                        &&& aggregate.histogram.contains_key(#[trigger] samples[j])
                        &&& values[j] == rounded(samples[j] as int)
                        &&& counts[j] == rounded(aggregate.histogram[samples[j]] as int)
                    }
            }
        }
    } by {
        let entry = entries[places[i].0];
        assert(is_entry_of(entry, data));
        lemma_entry_metric(config, entry, data, places[i].1);
    }
    assert forall|i: int, a: int, b: int|
        0 <= i < origins.len() && 0 <= a < b < origins[i].samples.len() implies #[trigger] origins[i].samples[a]
        != #[trigger] origins[i].samples[b] by {
        let entry = entries[places[i].0];
        assert(is_entry_of(entry, data));
        lemma_entry_metric(config, entry, data, places[i].1);
        lemma_samples_differ(entry, data, places[i].1, a, places[i].1, b);
    }
    assert forall|i: int, j: int| 0 <= i < j < origins.len() implies {
        let (this, next) = (#[trigger] origins[i], #[trigger] origins[j]);
        &&& this.timestamp <= next.timestamp
        &&& this.timestamp == next.timestamp && this.key == next.key ==> {
            &&& metrics[j].unit is None
            &&& metrics[i].unit is None ==> metrics[j].values is Some
            &&& metrics[i].values is Some ==> this.samples.len() == 150
            &&& forall|a: int, b: int|
                0 <= a < this.samples.len() && 0 <= b < next.samples.len() ==> #[trigger] this.samples[a]
                    != #[trigger] next.samples[b]
        }
    } by {
        lemma_origins_in_order(config, data, entries, places[i], places[j]);
    }
    assert forall|timestamp: Timestamp, key: KeyView|
        data.contains_key(timestamp) && #[trigger] data[timestamp].contains_key(key) implies {
        &&& data[timestamp][key].counter.sample_count > 0 ==> exists|i: int|
            0 <= i < origins.len() && (#[trigger] origins[i]).timestamp == timestamp && origins[i].key == key
                && metrics[i].unit is Some
        &&& data[timestamp][key].gauge.sample_count > 0 ==> exists|i: int|
            0 <= i < origins.len() && (#[trigger] origins[i]).timestamp == timestamp && origins[i].key == key
                && metrics[i].unit is None && metrics[i].statistic_values is Some
    } by {
        let e = choose|e: int|
            0 <= e < entries.len() && (#[trigger] entries[e]).timestamp == timestamp && entries[e].key == key;
        assert(is_entry_of(entries[e], data));
        if entries[e].counter.sample_count > 0 {
            let i = lemma_placed(config, data, entries, places, e, 0);
            assert(origins[i] == origin_at(entries[e], 0));
        }
        if entries[e].gauge.sample_count > 0 {
            let i = lemma_placed(config, data, entries, places, e, summaries(entries[e]) - 1);
            assert(origins[i] == origin_at(entries[e], summaries(entries[e]) - 1));
        }
    }
    assert forall|timestamp: Timestamp, key: KeyView, sample: HistogramValue|
        data.contains_key(timestamp) && data[timestamp].contains_key(key)
            && #[trigger] data[timestamp][key].histogram.contains_key(sample) implies exists|i: int|
        0 <= i < origins.len() && (#[trigger] origins[i]).timestamp == timestamp && origins[i].key == key
            && origins[i].samples.contains(sample) by {
        let e = choose|e: int|
            0 <= e < entries.len() && (#[trigger] entries[e]).timestamp == timestamp && entries[e].key == key;
        let entry = entries[e];
        assert(is_entry_of(entry, data));
        let pair = (sample, data[timestamp][key].histogram[sample]);
        law_walk_passes_each_entry_once(entry.walk, data[timestamp][key].histogram, pair.0, pair.1);
        let w = choose|w: int| 0 <= w < entry.walk.len() && entry.walk[w] == pair;
        law_parts_are_runs(entry.walk);
        let (p, a) = (w / 150, w % 150);
        assert(parts(entry.walk)[p][a] == entry.walk[150 * p + a]);
        let i = lemma_placed(config, data, entries, places, e, summaries(entry) + p);
        assert(origins[i] == origin_at(entry, summaries(entry) + p));
        assert(origins[i].samples[a] == sample);
    }
    origins
}

} // verus!
