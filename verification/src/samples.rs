//! What the samples of histograms come to over several periods.
use crate::aggregate::{law_value_is_taken_in, AggregateView, Count, HistogramValue};
use crate::batch::{
    counter_metrics, entries_metrics, entry_metrics, gauge_metrics, histogram_metrics, is_batch_of, is_entry_of, lists,
    Data, Entry,
};
use crate::collector::{data_before, data_with, recorded_under};
use crate::config::CollectorConfig;
use crate::double::is_double;
use crate::histogram::{is_walk, law_part_shows_samples_and_counts, part_len, parts};
use crate::laws::law_final_send_takes_everything;
use crate::metric::{KeyView, MetricDatumView, Value};
use crate::time::{rfc3339_millis, Timestamp};
use crate::totals::{
    data_after, entry_places, has_room_for_recordings, identity_of, lemma_sum_of_equals, lemma_sum_without, places,
    sum_over, Identity, Place, Recording,
};
use vstd::prelude::*;

verus! {

/// How many of the recordings are samples whose metrics have an identity.
pub open spec fn recorded_samples(config: CollectorConfig, recordings: Seq<Recording>, identity: Identity) -> nat {
    recordings.filter(
        |recording: Recording| recording.value is Histogram && identity_of(config, recording.key) == identity,
    ).len()
}

/// What the numbers add up to.
pub open spec fn sum_of(numbers: Seq<i128>) -> int {
    numbers.fold_left(0int, |sum: int, number: i128| sum + number)
}

/// What the counts of all the metrics with an identity add up to.
pub open spec fn sent_samples(metrics: Seq<MetricDatumView>, identity: Identity) -> int {
    metrics.fold_left(
        0int,
        |sum: int, metric: MetricDatumView|
            sum + if metric.metric_name == identity.name && metric.dimensions == Some(identity.dimensions)
                && metric.counts is Some {
                sum_of(metric.counts->0)
            } else {
                0
            },
    )
}

/// How many samples a histogram holds.
pub open spec fn samples_in(histogram: Map<HistogramValue, Count>) -> int {
    sum_over(histogram.dom(), |sample: HistogramValue| histogram[sample] as int)
}

/// How many samples the data hold at a place, if its metrics have an identity.
spec fn samples_at(config: CollectorConfig, data: Data, identity: Identity) -> spec_fn(Place) -> int {
    |place: Place|
        if identity_of(config, place.1) == identity {
            samples_in(data[place.0][place.1].histogram)
        } else {
            0
        }
}

/// Whether all histograms are finite.
spec fn is_finite(data: Data) -> bool {
    &&& places(data).finite()
    &&& forall|timestamp: Timestamp, key: KeyView|
        data.contains_key(timestamp) && #[trigger] data[timestamp].contains_key(key)
            ==> data[timestamp][key].histogram.dom().finite()
}

/// Whether all counts in the data are numbers that doubles stand for.
pub open spec fn has_exact_counts(data: Data) -> bool {
    forall|timestamp: Timestamp, key: KeyView, sample: HistogramValue|
        data.contains_key(timestamp) && data[timestamp].contains_key(key)
            && #[trigger] data[timestamp][key].histogram.contains_key(sample) ==> is_double(
            data[timestamp][key].histogram[sample] as int,
        )
}

/// A further sample makes the histogram hold one more.
proof fn lemma_samples_with(aggregate: AggregateView, value: Value)
    requires
        aggregate.histogram.dom().finite(),
        aggregate.has_room_for(value),
    ensures
        aggregate.with(value).histogram.dom().finite(),
        samples_in(aggregate.with(value).histogram) == samples_in(aggregate.histogram) + if value is Histogram {
            1int
        } else {
            0
        },
{
    law_value_is_taken_in(aggregate, value);
    if let Value::Histogram(sample) = value {
        let (before, after) = (aggregate.histogram, aggregate.with(value).histogram);
        let f = |sample: HistogramValue| before[sample] as int;
        let g = |sample: HistogramValue| after[sample] as int;
        let rest = before.dom().remove(sample);
        assert(after.dom() =~= before.dom().insert(sample));
        assert(after.dom().remove(sample) =~= rest);
        lemma_sum_without(after.dom(), g, sample);
        lemma_sum_of_equals(rest, f, g);
        if before.contains_key(sample) {
            lemma_sum_without(before.dom(), f, sample);
        } else {
            assert(rest =~= before.dom());
        }
    }
}

/// A recording makes the data hold one sample more, if it is one.
proof fn lemma_kept_samples_with(config: CollectorConfig, data: Data, recording: Recording, identity: Identity)
    requires
        is_finite(data),
        recorded_under(data, recording.timestamp, recording.key).has_room_for(recording.value),
    ensures
        ({
            let after = data_with(data, recording.timestamp, recording.key, recording.value);
            &&& is_finite(after)
            &&& sum_over(places(after), samples_at(config, after, identity)) == sum_over(
                places(data),
                samples_at(config, data, identity),
            ) + if recording.value is Histogram && identity_of(config, recording.key) == identity {
                1int
            } else {
                0
            }
        }),
{
    let after = data_with(data, recording.timestamp, recording.key, recording.value);
    let place = (recording.timestamp, recording.key);
    let kept = recorded_under(data, place.0, place.1);
    let f = samples_at(config, data, identity);
    let g = samples_at(config, after, identity);
    let rest = places(data).remove(place);
    if places(data).contains(place) {
        assert(data[place.0].contains_key(place.1));
    }
    assert(kept.histogram.dom().finite());
    lemma_samples_with(kept, recording.value);
    assert(after[place.0][place.1] == kept.with(recording.value));
    assert(places(after) =~= places(data).insert(place));
    assert(places(after).remove(place) =~= rest);
    assert forall|timestamp: Timestamp, key: KeyView|
        after.contains_key(timestamp) && #[trigger] after[timestamp].contains_key(
            key,
        ) implies after[timestamp][key].histogram.dom().finite() by {
        if (timestamp, key) != place {
            assert(data[timestamp].contains_key(key));
        }
    }
    lemma_sum_without(places(after), g, place);
    assert forall|other: Place| #[trigger] rest.contains(other) implies f(other) == g(other) by {
        assert(after[other.0][other.1] == data[other.0][other.1]);
    }
    lemma_sum_of_equals(rest, f, g);
    if places(data).contains(place) {
        lemma_sum_without(places(data), f, place);
    } else {
        assert(rest =~= places(data));
        assert(samples_in(Map::<HistogramValue, Count>::empty()) == 0) by {
            assert(Map::<HistogramValue, Count>::empty().dom() =~= Set::empty());
        }
    }
}

/// The samples that are recorded add up in the data.
proof fn lemma_kept_samples(config: CollectorConfig, recordings: Seq<Recording>, identity: Identity)
    requires
        has_room_for_recordings(Data::empty(), recordings),
    ensures
        ({
            let data = data_after(Data::empty(), recordings);
            &&& is_finite(data)
            &&& sum_over(places(data), samples_at(config, data, identity)) == recorded_samples(
                config,
                recordings,
                identity,
            )
        }),
    decreases recordings.len(),
{
    reveal(Seq::filter);
    if recordings.len() == 0 {
        assert(places(Data::empty()) =~= Set::empty());
    } else {
        let init = recordings.drop_last();
        lemma_kept_samples(config, init, identity);
        lemma_kept_samples_with(config, data_after(Data::empty(), init), recordings.last(), identity);
    }
}

proof fn lemma_sum_of_concat(first: Seq<i128>, second: Seq<i128>)
    ensures
        sum_of(first + second) == sum_of(first) + sum_of(second),
    decreases second.len(),
{
    if second.len() == 0 {
        assert(first + second =~= first);
    } else {
        assert((first + second).drop_last() =~= first + second.drop_last());
        lemma_sum_of_concat(first, second.drop_last());
    }
}

proof fn lemma_sent_samples_concat(first: Seq<MetricDatumView>, second: Seq<MetricDatumView>, identity: Identity)
    ensures
        sent_samples(first + second, identity) == sent_samples(first, identity) + sent_samples(second, identity),
    decreases second.len(),
{
    if second.len() == 0 {
        assert(first + second =~= first);
    } else {
        assert((first + second).drop_last() =~= first + second.drop_last());
        lemma_sent_samples_concat(first, second.drop_last(), identity);
    }
}

/// The counts of a walk.
spec fn walk_counts(walk: Seq<(HistogramValue, Count)>) -> Seq<i128> {
    walk.map_values(|pair: (HistogramValue, Count)| pair.1 as i128)
}

/// The counts of the entries that a walk passes come to what the histogram holds.
proof fn lemma_walk_total(walk: Seq<(HistogramValue, Count)>, histogram: Map<HistogramValue, Count>)
    requires
        is_walk(walk, histogram),
    ensures
        histogram.dom().finite(),
        sum_of(walk_counts(walk)) == samples_in(histogram),
    decreases walk.len(),
{
    let f = |sample: HistogramValue| histogram[sample] as int;
    if walk.len() == 0 {
        assert(histogram.dom() =~= Set::empty()) by {
            assert forall|sample: HistogramValue| !histogram.dom().contains(sample) by {
                if histogram.contains_key(sample) {
                    assert(walk.contains((sample, histogram[sample])));
                }
            }
        }
    } else {
        let last = walk.last();
        let init = walk.drop_last();
        let rest = histogram.remove(last.0);
        assert(walk[walk.len() - 1] == last);
        assert forall|i: int| 0 <= i < init.len() implies rest.contains_key((#[trigger] init[i]).0)
            && rest[init[i].0] == init[i].1 by {
            assert(walk[i] == init[i]);
            assert(walk[i].0 != walk[walk.len() - 1].0);
        }
        assert forall|i: int, j: int| 0 <= i < j < init.len() implies (#[trigger] init[i]).0 != (
        #[trigger] init[j]).0 by {
            assert(walk[i].0 != walk[j].0);
        }
        assert forall|sample: HistogramValue| #[trigger] rest.contains_key(sample) implies init.contains(
            (sample, rest[sample]),
        ) by {
            assert(walk.contains((sample, histogram[sample])));
            let i = choose|i: int| 0 <= i < walk.len() && walk[i] == (sample, histogram[sample]);
            assert(init[i] == walk[i]);
        }
        lemma_walk_total(init, rest);
        assert(rest.dom() =~= histogram.dom().remove(last.0));
        assert(histogram.dom() =~= rest.dom().insert(last.0));
        lemma_sum_without(histogram.dom(), f, last.0);
        lemma_sum_of_equals(rest.dom(), f, |sample: HistogramValue| rest[sample] as int);
        assert(walk_counts(walk).drop_last() =~= walk_counts(init));
    }
}

/// The metrics of a histogram with exact counts show all that a walk passes.
proof fn lemma_sent_samples_of_walk(
    config: CollectorConfig,
    text: Seq<char>,
    key: KeyView,
    walk: Seq<(HistogramValue, Count)>,
    identity: Identity,
)
    requires
        forall|i: int| 0 <= i < walk.len() ==> is_double((#[trigger] walk[i]).1 as int),
    ensures
        sent_samples(histogram_metrics(config, text, key, walk), identity) == if identity_of(config, key) == identity {
            sum_of(walk_counts(walk))
        } else {
            0
        },
    decreases walk.len(),
{
    let metrics = histogram_metrics(config, text, key, walk);
    if walk.len() > 0 {
        let part = walk.take(part_len(walk));
        let rest = walk.skip(part_len(walk));
        let first = metrics[0];
        assert(parts(walk) == seq![part] + parts(rest));
        assert(metrics =~= seq![first] + histogram_metrics(config, text, key, rest));
        lemma_sent_samples_concat(seq![first], histogram_metrics(config, text, key, rest), identity);
        lemma_sent_samples_of_walk(config, text, key, rest, identity);
        law_part_shows_samples_and_counts(part);
        assert(first.counts->0 =~= walk_counts(part)) by {
            assert forall|i: int| 0 <= i < part.len() implies #[trigger] first.counts->0[i] == walk_counts(
                part,
            )[i] by {
                assert(part[i] == walk[i]);
            }
        }
        assert(walk_counts(walk) =~= walk_counts(part) + walk_counts(rest));
        lemma_sum_of_concat(walk_counts(part), walk_counts(rest));
        assert(seq![first].drop_last() =~= Seq::empty());
        assert(sent_samples(seq![first].drop_last(), identity) == 0);
        assert(identity_of(config, key) == (Identity {
            name: first.metric_name,
            dimensions: first.dimensions->0,
        }));
    }
}

/// The metrics of an entry with exact counts show all of its samples.
proof fn lemma_sent_samples_of_entry(config: CollectorConfig, entry: Entry, data: Data, identity: Identity)
    requires
        is_entry_of(entry, data),
        has_exact_counts(data),
    ensures
        sent_samples(entry_metrics(config, entry), identity) == samples_at(config, data, identity)(
            (entry.timestamp, entry.key),
        ),
{
    let text = rfc3339_millis(entry.timestamp);
    let counters = counter_metrics(config, text, entry.key, entry.counter);
    let gauges = gauge_metrics(config, text, entry.key, entry.gauge);
    let histograms = histogram_metrics(config, text, entry.key, entry.walk);
    lemma_sent_samples_concat(counters + gauges, histograms, identity);
    lemma_sent_samples_concat(counters, gauges, identity);
    assert forall|i: int| 0 <= i < entry.walk.len() implies is_double((#[trigger] entry.walk[i]).1 as int) by {
        assert(data[entry.timestamp][entry.key].histogram.contains_key(entry.walk[i].0));
    }
    lemma_sent_samples_of_walk(config, text, entry.key, entry.walk, identity);
    lemma_walk_total(entry.walk, data[entry.timestamp][entry.key].histogram);
    assert(sent_samples(Seq::empty(), identity) == 0);
    if counters.len() > 0 {
        assert(counters.drop_last() =~= Seq::empty());
    }
    if gauges.len() > 0 {
        assert(gauges.drop_last() =~= Seq::empty());
    }
}

/// The metrics of entries for different places show the samples at these places.
proof fn lemma_sent_samples_of_entries(config: CollectorConfig, data: Data, entries: Seq<Entry>, identity: Identity)
    requires
        has_exact_counts(data),
        forall|i: int| 0 <= i < entries.len() ==> is_entry_of(#[trigger] entries[i], data),
        forall|i: int, j: int|
            0 <= i < j < entries.len() ==> {
                ||| (#[trigger] entries[i]).timestamp < (#[trigger] entries[j]).timestamp
                ||| entries[i].timestamp == entries[j].timestamp && entries[i].key != entries[j].key
            },
    ensures
        entry_places(entries).finite(),
        sent_samples(entries_metrics(config, entries), identity) == sum_over(
            entry_places(entries),
            samples_at(config, data, identity),
        ),
    decreases entries.len(),
{
    let f = samples_at(config, data, identity);
    if entries.len() == 0 {
        assert(entry_places(entries) =~= Set::empty());
    } else {
        let init = entries.drop_last();
        let last = entries.last();
        let place = (last.timestamp, last.key);
        assert forall|i: int| 0 <= i < init.len() implies is_entry_of(#[trigger] init[i], data) by {
            assert(init[i] == entries[i]);
        }
        assert forall|i: int, j: int| 0 <= i < j < init.len() implies {
            ||| (#[trigger] init[i]).timestamp < (#[trigger] init[j]).timestamp
            ||| init[i].timestamp == init[j].timestamp && init[i].key != init[j].key
        } by {
            assert(init[i] == entries[i] && init[j] == entries[j]);
        }
        lemma_sent_samples_of_entries(config, data, init, identity);
        assert(entries[entries.len() - 1] == last);
        assert(!entry_places(init).contains(place)) by {
            if entry_places(init).contains(place) {
                let i = choose|i: int|
                    0 <= i < init.len() && (#[trigger] init[i]).timestamp == place.0 && init[i].key == place.1;
                assert(entries[i] == init[i]);
            }
        }
        assert forall|other: Place| #[trigger] entry_places(entries).contains(other) <==> entry_places(init).insert(
            place,
        ).contains(other) by {
            if entry_places(entries).contains(other) {
                let i = choose|i: int|
                    0 <= i < entries.len() && (#[trigger] entries[i]).timestamp == other.0 && entries[i].key == other.1;
                if i < init.len() {
                    assert(init[i] == entries[i]);
                }
            }
            if entry_places(init).contains(other) {
                let i = choose|i: int|
                    0 <= i < init.len() && (#[trigger] init[i]).timestamp == other.0 && init[i].key == other.1;
                assert(entries[i] == init[i]);
            }
        }
        assert(entry_places(entries) =~= entry_places(init).insert(place));
        assert(entry_places(entries).remove(place) =~= entry_places(init));
        lemma_sum_without(entry_places(entries), f, place);
        lemma_sent_samples_concat(entries_metrics(config, init), entry_metrics(config, last), identity);
        lemma_sent_samples_of_entry(config, last, data, identity);
    }
}

/// No sample is lost and none is sent twice: whatever is recorded from the start, what the counts of
/// the last send add up to, for each identity, is how many samples were recorded. The one condition is
/// that the number of times that a sample was recorded under a key in a period is one that a double
/// stands for, as every number up to two to the 53rd is.
pub proof fn law_last_send_shows_all_samples(
    recordings: Seq<Recording>,
    config: CollectorConfig,
    metrics: Seq<MetricDatumView>,
    identity: Identity,
)
    requires
        has_room_for_recordings(Data::empty(), recordings),
        !data_after(Data::empty(), recordings).contains_key(Timestamp::MAX),
        has_exact_counts(data_after(Data::empty(), recordings)),
        is_batch_of(metrics, config, data_before(data_after(Data::empty(), recordings), Timestamp::MAX)),
    ensures
        sent_samples(metrics, identity) == recorded_samples(config, recordings, identity),
{
    let data = data_after(Data::empty(), recordings);
    law_final_send_takes_everything(data);
    lemma_kept_samples(config, recordings, identity);
    let entries = choose|entries: Seq<Entry>| #[trigger]
        lists(entries, data) && metrics == entries_metrics(config, entries);
    lemma_sent_samples_of_entries(config, data, entries, identity);
    assert forall|place: Place| #[trigger] places(data).contains(place) <==> entry_places(entries).contains(place) by {
        if places(data).contains(place) {
            assert(data[place.0].contains_key(place.1));
        }
        if entry_places(entries).contains(place) {
            let i = choose|i: int|
                0 <= i < entries.len() && (#[trigger] entries[i]).timestamp == place.0 && entries[i].key == place.1;
            assert(is_entry_of(entries[i], data));
        }
    }
    assert(places(data) =~= entry_places(entries));
}

} // verus!
