//! What the increments of counters come to over several periods.
use crate::aggregate::{law_recording_keeps_aggregates_valid, AggregateView, Counter};
use crate::batch::{
    counter_metrics, dimensions_of, entries_metrics, entry_metrics, gauge_metrics, histogram_metrics,
    is_batch_of, is_entry_of, lists, Data, Entry,
};
use crate::collector::{data_before, data_since, data_with, recorded_under};
use crate::config::CollectorConfig;
use crate::double::{is_double, law_small_integers_are_exact, lemma_rounded_word, rounded};
use crate::laws::law_final_send_takes_everything;
use crate::metric::{KeyView, MetricDatumView, PairView, StatisticSet, Value};
use crate::time::{rfc3339_millis, Timestamp};
use vstd::prelude::*;

verus! {

/// A value that is recorded under a key in the period that starts at a timestamp.
pub struct Recording {
    pub timestamp: Timestamp,
    pub key: KeyView,
    pub value: Value,
}

/// The data once several values have been recorded, one after another.
pub open spec fn data_after(data: Data, recordings: Seq<Recording>) -> Data
    decreases recordings.len(),
{
    if recordings.len() == 0 {
        data
    } else {
        let last = recordings.last();
        data_with(data_after(data, recordings.drop_last()), last.timestamp, last.key, last.value)
    }
}

/// Whether there is room for several values, one after another.
pub open spec fn has_room_for_recordings(data: Data, recordings: Seq<Recording>) -> bool
    decreases recordings.len(),
{
    recordings.len() > 0 ==> {
        let last = recordings.last();
        &&& has_room_for_recordings(data, recordings.drop_last())
        &&& recorded_under(data_after(data, recordings.drop_last()), last.timestamp, last.key).has_room_for(last.value)
    }
}

/// What is added up of a counter.
pub enum Figure {
    Sum,
    SampleCount,
}

/// A figure of a counter.
pub open spec fn figure_of(counter: Counter, figure: Figure) -> int {
    match figure {
        Figure::Sum => counter.sum as int,
        Figure::SampleCount => counter.sample_count as int,
    }
}

/// What an increment adds to a figure.
pub open spec fn figure_of_increment(increment: u64, figure: Figure) -> int {
    match figure {
        Figure::Sum => increment as int,
        Figure::SampleCount => 1,
    }
}

/// A figure of a summary.
pub open spec fn figure_of_set(set: StatisticSet, figure: Figure) -> int {
    match figure {
        Figure::Sum => set.sum as int,
        Figure::SampleCount => set.sample_count as int,
    }
}

/// What CloudWatch knows a metric by.
pub struct Identity {
    pub name: Seq<char>,
    pub dimensions: Seq<PairView>,
}

/// What CloudWatch knows the metrics of a key by. Keys that differ only in labels that there is no
/// room for are the same to it.
pub open spec fn identity_of(config: CollectorConfig, key: KeyView) -> Identity {
    Identity { name: key.name, dimensions: dimensions_of(config, key) }
}

/// A figure over all the increments among the recordings whose metrics have an identity.
pub open spec fn recorded_total(
    config: CollectorConfig,
    recordings: Seq<Recording>,
    identity: Identity,
    figure: Figure,
) -> int
    decreases recordings.len(),
{
    if recordings.len() == 0 {
        0
    } else {
        let last = recordings.last();
        recorded_total(config, recordings.drop_last(), identity, figure) + match last.value {
            Value::Counter(increment) => if identity_of(config, last.key) == identity {
                figure_of_increment(increment, figure)
            } else {
                0
            },
            _ => 0,
        }
    }
}

/// Whether a metric is that of a counter, with an identity.
pub open spec fn is_counter_metric(metric: MetricDatumView, identity: Identity) -> bool {
    &&& metric.metric_name == identity.name
    &&& metric.dimensions == Some(identity.dimensions)
    &&& metric.unit == Some("Count"@)
    &&& metric.statistic_values is Some
}

/// A figure over all the metrics of counters with an identity.
pub open spec fn sent_total(metrics: Seq<MetricDatumView>, identity: Identity, figure: Figure) -> int
    decreases metrics.len(),
{
    if metrics.len() == 0 {
        0
    } else {
        sent_total(metrics.drop_last(), identity, figure) + if is_counter_metric(metrics.last(), identity) {
            figure_of_set(metrics.last().statistic_values->0, figure)
        } else {
            0
        }
    }
}

/// A period, by its first second, and a key.
pub type Place = (Timestamp, KeyView);

/// The periods and keys that something was recorded in and under.
pub open spec fn places(data: Data) -> Set<Place> {
    Set::new(|place: Place| data.contains_key(place.0) && data[place.0].contains_key(place.1))
}

/// The sum of what a function gives for the elements of a finite set.
pub open spec fn sum_over<A>(set: Set<A>, f: spec_fn(A) -> int) -> int
    decreases set.len(),
{
    if set.finite() && set.len() > 0 {
        let element = set.choose();
        f(element) + sum_over(set.remove(element), f)
    } else {
        0
    }
}

/// What the data add to a figure at a place.
pub open spec fn figure_at(
    config: CollectorConfig,
    data: Data,
    identity: Identity,
    figure: Figure,
) -> spec_fn(Place) -> int {
    |place: Place|
        if identity_of(config, place.1) == identity {
            figure_of(data[place.0][place.1].counter, figure)
        } else {
            0
        }
}

/// A figure over all the counters in the data whose metrics have an identity.
pub open spec fn kept_total(config: CollectorConfig, data: Data, identity: Identity, figure: Figure) -> int {
    sum_over(places(data), figure_at(config, data, identity, figure))
}

/// What a batch shows of a figure at a place: a double.
pub open spec fn shown_at(
    config: CollectorConfig,
    data: Data,
    identity: Identity,
    figure: Figure,
) -> spec_fn(Place) -> int {
    |place: Place| rounded(figure_at(config, data, identity, figure)(place))
}

/// A figure over all the counters in the data whose metrics have an identity, with the figure of each
/// one a double.
pub open spec fn shown_total(config: CollectorConfig, data: Data, identity: Identity, figure: Figure) -> int {
    sum_over(places(data), shown_at(config, data, identity, figure))
}

/// Whether a figure is a double for each counter in the data whose metrics have an identity.
pub open spec fn is_exact(config: CollectorConfig, data: Data, identity: Identity, figure: Figure) -> bool {
    forall|place: Place| #[trigger]
        places(data).contains(place) ==> is_double(figure_at(config, data, identity, figure)(place))
}

/// Whether all that the data hold is valid.
pub open spec fn is_valid_data(data: Data) -> bool {
    forall|timestamp: Timestamp, key: KeyView|
        data.contains_key(timestamp) && #[trigger] data[timestamp].contains_key(key) ==> data[timestamp][key].is_valid()
}

pub(crate) proof fn lemma_sum_without<A>(set: Set<A>, f: spec_fn(A) -> int, place: A)
    requires
        set.finite(),
        set.contains(place),
    ensures
        sum_over(set, f) == f(place) + sum_over(set.remove(place), f),
    decreases set.len(),
{
    let chosen = set.choose();
    if chosen != place {
        lemma_sum_without(set.remove(chosen), f, place);
        lemma_sum_without(set.remove(place), f, chosen);
        assert(set.remove(chosen).remove(place) =~= set.remove(place).remove(chosen));
    }
}

pub(crate) proof fn lemma_sum_of_equals<A>(set: Set<A>, f: spec_fn(A) -> int, g: spec_fn(A) -> int)
    requires
        forall|place: A| #[trigger] set.contains(place) ==> f(place) == g(place),
    ensures
        sum_over(set, f) == sum_over(set, g),
    decreases set.len(),
{
    if set.finite() && set.len() > 0 {
        let place = set.choose();
        assert(set.contains(place));
        lemma_sum_of_equals(set.remove(place), f, g);
    }
}

/// Recording a value adds it to the figure, if it is an increment with the identity.
proof fn lemma_kept_total_with(
    config: CollectorConfig,
    data: Data,
    recording: Recording,
    identity: Identity,
    figure: Figure,
)
    requires
        places(data).finite(),
        recorded_under(data, recording.timestamp, recording.key).has_room_for(recording.value),
    ensures
        ({
            let after = data_with(data, recording.timestamp, recording.key, recording.value);
            &&& places(after).finite()
            &&& kept_total(config, after, identity, figure) == kept_total(config, data, identity, figure)
                + recorded_total(config, seq![recording], identity, figure)
        }),
{
    let after = data_with(data, recording.timestamp, recording.key, recording.value);
    let place = (recording.timestamp, recording.key);
    let f = figure_at(config, data, identity, figure);
    let g = figure_at(config, after, identity, figure);
    let rest = places(data).remove(place);
    assert(places(after) =~= places(data).insert(place));
    assert(places(after).remove(place) =~= rest);
    lemma_sum_without(places(after), g, place);
    assert forall|other: Place| #[trigger] rest.contains(other) implies f(other) == g(other) by {
        assert(after[other.0][other.1] == data[other.0][other.1]);
    }
    lemma_sum_of_equals(rest, f, g);
    if places(data).contains(place) {
        lemma_sum_without(places(data), f, place);
    } else {
        assert(rest =~= places(data));
    }
    assert(after[place.0][place.1] == recorded_under(data, place.0, place.1).with(recording.value));
    assert(seq![recording].drop_last() =~= Seq::empty());
    assert(recorded_total(config, seq![recording].drop_last(), identity, figure) == 0);
}

/// The increments that are recorded add up in the data, over all periods.
pub proof fn law_increments_add_up_in_the_data(
    config: CollectorConfig,
    data: Data,
    recordings: Seq<Recording>,
    identity: Identity,
    figure: Figure,
)
    requires
        places(data).finite(),
        has_room_for_recordings(data, recordings),
    ensures
        places(data_after(data, recordings)).finite(),
        kept_total(config, data_after(data, recordings), identity, figure) == kept_total(
            config,
            data,
            identity,
            figure,
        ) + recorded_total(config, recordings, identity, figure),
    decreases recordings.len(),
{
    if recordings.len() > 0 {
        let init = recordings.drop_last();
        law_increments_add_up_in_the_data(config, data, init, identity, figure);
        lemma_kept_total_with(config, data_after(data, init), recordings.last(), identity, figure);
        assert(seq![recordings.last()].drop_last() =~= Seq::empty());
        assert(recorded_total(config, seq![recordings.last()].drop_last(), identity, figure) == 0);
    }
}

proof fn lemma_sum_of_disjoint(first: Set<Place>, second: Set<Place>, f: spec_fn(Place) -> int)
    requires
        first.finite(),
        second.finite(),
        first.disjoint(second),
    ensures
        sum_over(first.union(second), f) == sum_over(first, f) + sum_over(second, f),
    decreases first.len(),
{
    if first.len() == 0 {
        assert(first.union(second) =~= second);
    } else {
        let place = first.choose();
        lemma_sum_of_disjoint(first.remove(place), second, f);
        lemma_sum_without(first.union(second), f, place);
        assert(first.union(second).remove(place) =~= first.remove(place).union(second));
    }
}

/// A send loses no increments and counts none twice: what it takes and what it leaves come to what
/// there was.
pub proof fn law_sending_splits_the_totals(
    config: CollectorConfig,
    data: Data,
    until: Timestamp,
    identity: Identity,
    figure: Figure,
)
    requires
        places(data).finite(),
    ensures
        kept_total(config, data_before(data, until), identity, figure) + kept_total(
            config,
            data_since(data, until),
            identity,
            figure,
        ) == kept_total(config, data, identity, figure),
{
    let f = figure_at(config, data, identity, figure);
    let taken = data_before(data, until);
    let left = data_since(data, until);
    assert(places(taken) =~= places(data).filter(|place: Place| place.0 < until));
    assert(places(left) =~= places(data).filter(|place: Place| place.0 >= until));
    assert(places(taken).union(places(left)) =~= places(data));
    places(data).lemma_len_filter(|place: Place| place.0 < until);
    places(data).lemma_len_filter(|place: Place| place.0 >= until);
    lemma_sum_of_disjoint(places(taken), places(left), f);
    lemma_sum_of_equals(places(taken), f, figure_at(config, taken, identity, figure));
    lemma_sum_of_equals(places(left), f, figure_at(config, left, identity, figure));
}

proof fn lemma_sent_total_concat(
    first: Seq<MetricDatumView>,
    second: Seq<MetricDatumView>,
    identity: Identity,
    figure: Figure,
)
    ensures
        sent_total(first + second, identity, figure) == sent_total(first, identity, figure) + sent_total(
            second,
            identity,
            figure,
        ),
    decreases second.len(),
{
    if second.len() == 0 {
        assert(first + second =~= first);
    } else {
        assert((first + second).drop_last() =~= first + second.drop_last());
        lemma_sent_total_concat(first, second.drop_last(), identity, figure);
    }
}

/// Metrics without a unit are not those of counters.
proof fn lemma_sent_total_without_unit(metrics: Seq<MetricDatumView>, identity: Identity, figure: Figure)
    requires
        forall|i: int| 0 <= i < metrics.len() ==> (#[trigger] metrics[i]).unit is None,
    ensures
        sent_total(metrics, identity, figure) == 0,
    decreases metrics.len(),
{
    if metrics.len() > 0 {
        lemma_sent_total_without_unit(metrics.drop_last(), identity, figure);
        assert(metrics[metrics.len() - 1].unit is None);
    }
}

/// The metrics of an entry show the figures of its counter.
proof fn lemma_sent_total_of_entry(config: CollectorConfig, entry: Entry, identity: Identity, figure: Figure)
    requires
        entry.counter.sample_count == 0 ==> entry.counter.sum == 0,
    ensures
        sent_total(entry_metrics(config, entry), identity, figure) == if identity_of(config, entry.key) == identity {
            rounded(figure_of(entry.counter, figure))
        } else {
            0
        },
{
    let text = rfc3339_millis(entry.timestamp);
    let counters = counter_metrics(config, text, entry.key, entry.counter);
    let gauges = gauge_metrics(config, text, entry.key, entry.gauge);
    let histograms = histogram_metrics(config, text, entry.key, entry.walk);
    lemma_sent_total_concat(counters + gauges, histograms, identity, figure);
    lemma_sent_total_concat(counters, gauges, identity, figure);
    lemma_sent_total_without_unit(gauges, identity, figure);
    lemma_sent_total_without_unit(histograms, identity, figure);
    law_small_integers_are_exact(0);
    lemma_rounded_word(entry.counter.sum as int);
    lemma_rounded_word(entry.counter.sample_count as int);
    if entry.counter.sample_count > 0 {
        assert(counters.drop_last() =~= Seq::empty());
        assert(sent_total(counters.drop_last(), identity, figure) == 0);
        assert(is_counter_metric(counters.last(), identity_of(config, entry.key)));
    }
}

/// The places of a list of entries.
pub open spec fn entry_places(entries: Seq<Entry>) -> Set<Place> {
    Set::new(
        |place: Place| exists|i: int| 0 <= i < entries.len() && (#[trigger] entries[i]).timestamp == place.0
            && entries[i].key == place.1,
    )
}

/// The metrics of entries for different places show the figures at these places.
proof fn lemma_sent_total_of_entries(
    config: CollectorConfig,
    data: Data,
    entries: Seq<Entry>,
    identity: Identity,
    figure: Figure,
)
    requires
        is_valid_data(data),
        forall|i: int| 0 <= i < entries.len() ==> is_entry_of(#[trigger] entries[i], data),
        forall|i: int, j: int|
            0 <= i < j < entries.len() ==> {
                ||| (#[trigger] entries[i]).timestamp < (#[trigger] entries[j]).timestamp
                ||| entries[i].timestamp == entries[j].timestamp && entries[i].key != entries[j].key
            },
    ensures
        entry_places(entries).finite(),
        sent_total(entries_metrics(config, entries), identity, figure) == sum_over(
            entry_places(entries),
            shown_at(config, data, identity, figure),
        ),
    decreases entries.len(),
{
    let f = shown_at(config, data, identity, figure);
    if entries.len() == 0 {
        assert(entry_places(entries) =~= Set::empty());
    } else {
        let init = entries.drop_last();
        let last = entries.last();
        let place = (last.timestamp, last.key);
        assert forall|i: int| 0 <= i < init.len() implies is_entry_of(#[trigger] init[i], data) by {
            assert(init[i] == entries[i]);
        }
        assert forall|i: int, j: int| 0 <= i < j < init.len() implies {
            ||| (#[trigger] init[i]).timestamp < (#[trigger] init[j]).timestamp
            ||| init[i].timestamp == init[j].timestamp && init[i].key != init[j].key
        } by {
            assert(init[i] == entries[i] && init[j] == entries[j]);
        }
        lemma_sent_total_of_entries(config, data, init, identity, figure);
        assert(entries[entries.len() - 1] == last);
        assert(is_entry_of(last, data));
        assert(!entry_places(init).contains(place)) by {
            if entry_places(init).contains(place) {
                let i = choose|i: int|
                    0 <= i < init.len() && (#[trigger] init[i]).timestamp == place.0 && init[i].key == place.1;
                assert(entries[i] == init[i]);
            }
        }
        assert forall|other: Place| #[trigger] entry_places(entries).contains(other) <==> entry_places(init).insert(
            place,
        ).contains(other) by {
            if entry_places(entries).contains(other) {
                let i = choose|i: int|
                    0 <= i < entries.len() && (#[trigger] entries[i]).timestamp == other.0 && entries[i].key == other.1;
                if i < init.len() {
                    assert(init[i] == entries[i]);
                }
            }
            if entry_places(init).contains(other) {
                let i = choose|i: int|
                    0 <= i < init.len() && (#[trigger] init[i]).timestamp == other.0 && init[i].key == other.1;
                assert(entries[i] == init[i]);
            }
        }
        assert(entry_places(entries) =~= entry_places(init).insert(place));
        assert(entry_places(entries).remove(place) =~= entry_places(init));
        lemma_sum_without(entry_places(entries), f, place);
        lemma_sent_total_concat(entries_metrics(config, init), entry_metrics(config, last), identity, figure);
        assert(data[last.timestamp].contains_key(last.key));
        lemma_sent_total_of_entry(config, last, identity, figure);
        law_small_integers_are_exact(0);
    }
}

/// The metrics of a batch show what the counters in the data come to, over all periods, each counter
/// as a double.
pub proof fn law_batch_shows_the_totals(
    metrics: Seq<MetricDatumView>,
    config: CollectorConfig,
    data: Data,
    identity: Identity,
    figure: Figure,
)
    requires
        is_batch_of(metrics, config, data),
        is_valid_data(data),
    ensures
        places(data).finite(),
        sent_total(metrics, identity, figure) == shown_total(config, data, identity, figure),
{
    let entries = choose|entries: Seq<Entry>| #[trigger]
        lists(entries, data) && metrics == entries_metrics(config, entries);
    lemma_sent_total_of_entries(config, data, entries, identity, figure);
    assert forall|place: Place| #[trigger] places(data).contains(place) <==> entry_places(entries).contains(place) by {
        if places(data).contains(place) {
            assert(data[place.0].contains_key(place.1));
        }
        if entry_places(entries).contains(place) {
            let i = choose|i: int|
                0 <= i < entries.len() && (#[trigger] entries[i]).timestamp == place.0 && entries[i].key == place.1;
            assert(is_entry_of(entries[i], data));
        }
    }
    assert(places(data) =~= entry_places(entries));
}

proof fn lemma_recordings_leave_valid_data(data: Data, recordings: Seq<Recording>)
    requires
        is_valid_data(data),
        has_room_for_recordings(data, recordings),
    ensures
        is_valid_data(data_after(data, recordings)),
    decreases recordings.len(),
{
    if recordings.len() > 0 {
        let last = recordings.last();
        let before = data_after(data, recordings.drop_last());
        let after = data_after(data, recordings);
        lemma_recordings_leave_valid_data(data, recordings.drop_last());
        assert forall|timestamp: Timestamp, key: KeyView|
            after.contains_key(timestamp) && #[trigger] after[timestamp].contains_key(
                key,
            ) implies after[timestamp][key].is_valid() by {
            if timestamp == last.timestamp && key == last.key {
                let kept = recorded_under(before, timestamp, key);
                assert(kept.is_valid()) by {
                    if before.contains_key(timestamp) && before[timestamp].contains_key(key) {
                        assert(before[timestamp][key].is_valid());
                    } else {
                        law_small_integers_are_exact(0);
                    }
                }
                let values = seq![last.value];
                assert(values.drop_last() =~= Seq::empty());
                reveal_with_fuel(AggregateView::with_all, 2);
                reveal_with_fuel(AggregateView::has_room_for_all, 2);
                law_recording_keeps_aggregates_valid(kept, values);
                assert(kept.with_all(values) == kept.with(last.value));
            } else {
                assert(before[timestamp].contains_key(key));
            }
        }
    }
}

/// Increments add up over several periods: whatever is recorded from the start, the metrics of the
/// last send show, for each identity, what the increments come to and how many there were. The one
/// condition is that what they come to in a single period is a number that a double stands for.
pub proof fn law_last_send_shows_all_increments(
    recordings: Seq<Recording>,
    config: CollectorConfig,
    metrics: Seq<MetricDatumView>,
    identity: Identity,
    figure: Figure,
)
    requires
        has_room_for_recordings(Data::empty(), recordings),
        !data_after(Data::empty(), recordings).contains_key(Timestamp::MAX),
        is_exact(config, data_after(Data::empty(), recordings), identity, figure),
        is_batch_of(metrics, config, data_before(data_after(Data::empty(), recordings), Timestamp::MAX)),
    ensures
        sent_total(metrics, identity, figure) == recorded_total(config, recordings, identity, figure),
{
    let data = data_after(Data::empty(), recordings);
    law_final_send_takes_everything(data);
    assert(places(Data::empty()) =~= Set::empty());
    lemma_recordings_leave_valid_data(Data::empty(), recordings);
    law_increments_add_up_in_the_data(config, Data::empty(), recordings, identity, figure);
    law_batch_shows_the_totals(metrics, config, data, identity, figure);
    lemma_sum_of_equals(
        places(data),
        shown_at(config, data, identity, figure),
        figure_at(config, data, identity, figure),
    );
}

} // verus!
