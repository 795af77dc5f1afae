use metrics_cloudwatch::batch::metrics_for_key;
use metrics_cloudwatch::histogram::{histogram_parts, histogram_walk};
use metrics_cloudwatch::time::{send_limit, LAST_TIMESTAMP};
use metrics_cloudwatch::{
    put_requests, time_key, Aggregate, Collector, CollectorConfig, CollectorError, Counter, Datum, Dimension, Key, Label,
    Message, MetricDatum, Resolution, StatisticSet, Value,
};
use std::collections::HashMap;

#[test]
fn time_key_should_truncate() {
    assert_eq!(time_key(370, Resolution::Second), 370);
    assert_eq!(time_key(370, Resolution::Minute), 360);
}

fn key(name: &str, labels: &[(&str, &str)]) -> Key {
    Key {
        name: name.into(),
        labels: labels.iter().map(|(k, v)| Label { key: k.to_string(), value: v.to_string() }).collect(),
    }
}

fn dimension(name: &str, value: &str) -> Dimension {
    Dimension { name: name.into(), value: value.into() }
}

fn config(resolution: Resolution) -> CollectorConfig {
    CollectorConfig::new(vec![dimension("host", "h1")], resolution)
}

fn batch(collector: &mut Collector, send_all_before: u64) -> Vec<MetricDatum> {
    collector.accept(Message::SendBatch { send_all_before }).unwrap().unwrap_or_default()
}

#[test]
fn time_keys_start_periods() {
    assert_eq!(time_key(0, Resolution::Minute), 0);
    assert_eq!(time_key(59, Resolution::Minute), 0);
    assert_eq!(time_key(60, Resolution::Minute), 60);
    assert_eq!(time_key(u64::MAX, Resolution::Minute), u64::MAX - 15);
    assert_eq!(time_key(time_key(370, Resolution::Minute), Resolution::Minute), 360);
    assert_eq!(Resolution::Second.as_secs(), 1);
    assert_eq!(Resolution::Minute.as_secs(), 60);
}

#[test]
fn regular_sends_stop_before_the_current_period() {
    assert_eq!(send_limit(370, Resolution::Minute), 359);
    assert_eq!(send_limit(370, Resolution::Second), 369);
    let mut collector = Collector::new(config(Resolution::Second));
    for now in [367, 368, 369, 370] {
        collector.accept_datum_at(now, Datum::increment_counter(key("c", &[]), 1));
    }
    assert_eq!(batch(&mut collector, send_limit(370, Resolution::Second)).len(), 2);
    assert_eq!(batch(&mut collector, u64::MAX).len(), 2);
}

#[test]
fn counters_become_summaries() {
    let mut collector = Collector::new(config(Resolution::Minute));
    collector.accept_datum_at(100, Datum::increment_counter(key("c", &[("zone", "z1")]), 5));
    collector.accept_datum_at(119, Datum::increment_counter(key("c", &[("zone", "z1")]), 7));
    assert!(batch(&mut collector, 60).is_empty());
    let metrics = batch(&mut collector, 61);
    assert_eq!(
        metrics,
        vec![MetricDatum {
            counts: None,
            dimensions: Some(vec![dimension("host", "h1"), dimension("zone", "z1")]),
            metric_name: "c".into(),
            statistic_values: Some(StatisticSet { sample_count: 2, sum: 12, maximum: 12, minimum: 12 }),
            storage_resolution: Some(60),
            timestamp: Some("1970-01-01T00:01:00.000Z".into()),
            unit: Some("Count".into()),
            value: None,
            values: None,
        }]
    );
    assert!(batch(&mut collector, 61).is_empty());
}

#[test]
fn gauges_become_summaries() {
    let mut collector = Collector::new(config(Resolution::Second));
    for reading in [4, -6, 9] {
        collector.accept_datum_at(1_600_000_000, Datum::update_gauge(key("g", &[]), reading));
    }
    let metrics = batch(&mut collector, u64::MAX);
    assert_eq!(metrics.len(), 1);
    assert_eq!(
        metrics[0].statistic_values,
        Some(StatisticSet { sample_count: 3, sum: 7, maximum: 9, minimum: -6 })
    );
    assert_eq!(metrics[0].unit, None);
    assert_eq!(metrics[0].storage_resolution, Some(1));
    assert_eq!(metrics[0].timestamp.as_deref(), Some("2020-09-13T12:26:40.000Z"));
}

#[test]
fn histograms_become_parts() {
    let mut collector = Collector::new(config(Resolution::Second));
    for sample in 0..400 {
        for _ in 0..(sample % 3 + 1) {
            collector.accept_datum_at(5, Datum::record_histogram(key("h", &[]), sample));
        }
    }
    let metrics = batch(&mut collector, 6);
    let lens: Vec<usize> = metrics.iter().map(|m| m.values.as_ref().unwrap().len()).collect();
    assert_eq!(lens, vec![150, 150, 100]);
    let mut seen = HashMap::new();
    for metric in &metrics {
        assert_eq!(metric.statistic_values, None);
        assert_eq!(metric.unit, None);
        let counts = metric.counts.as_ref().unwrap();
        assert_eq!(counts.len(), metric.values.as_ref().unwrap().len());
        for (value, count) in metric.values.as_ref().unwrap().iter().zip(counts) {
            assert!(seen.insert(*value, *count).is_none());
        }
    }
    assert_eq!(seen.len(), 400);
    for sample in 0..400 {
        assert_eq!(seen[&sample], sample % 3 + 1);
    }
}

#[test]
fn one_key_may_carry_all_kinds() {
    let mut collector = Collector::new(config(Resolution::Second));
    collector.accept_datum_at(5, Datum::record_histogram(key("m", &[]), 3));
    collector.accept_datum_at(5, Datum::update_gauge(key("m", &[]), 2));
    collector.accept_datum_at(5, Datum::increment_counter(key("m", &[]), 0));
    let metrics = batch(&mut collector, 6);
    assert_eq!(metrics.len(), 3);
    assert_eq!(metrics[0].unit.as_deref(), Some("Count"));
    assert_eq!(metrics[1].statistic_values.unwrap().sum, 2);
    assert_eq!(metrics[2].values, Some(vec![3]));
    assert_eq!(metrics[2].counts, Some(vec![1]));
}

#[test]
fn keys_are_told_apart_by_labels_and_their_order() {
    let mut collector = Collector::new(config(Resolution::Second));
    let labels: [&[(&str, &str)]; 4] =
        [&[], &[("a", "1"), ("b", "2")], &[("b", "2"), ("a", "1")], &[("a", "1"), ("b", "3")]];
    for _ in 0..2 {
        for labels in labels {
            collector.accept_datum_at(5, Datum::increment_counter(key("m", labels), 1));
        }
    }
    let metrics = batch(&mut collector, 6);
    assert_eq!(metrics.len(), 4);
    for metric in metrics {
        assert_eq!(metric.statistic_values.unwrap().sample_count, 2);
    }
}

#[test]
fn periods_come_in_the_order_of_time() {
    let mut collector = Collector::new(config(Resolution::Minute));
    for now in [600, 60, 300, 301, 120] {
        collector.accept_datum_at(now, Datum::increment_counter(key("c", &[]), now));
    }
    let sums: Vec<i128> = batch(&mut collector, 301).iter().map(|m| m.statistic_values.unwrap().sum).collect();
    assert_eq!(sums, vec![60, 120, 601]);
    assert_eq!(batch(&mut collector, u64::MAX).len(), 1);
}

#[test]
fn default_dimensions_are_ordered_and_come_first() {
    let config = CollectorConfig::new(
        vec![dimension("b", "1"), dimension("a", "2"), dimension("B", "3"), dimension("b", "4"), dimension("aa", "5")],
        Resolution::Second,
    );
    let expected = vec![dimension("B", "3"), dimension("a", "2"), dimension("aa", "5"), dimension("b", "4")];
    assert_eq!(config.default_dimensions(), expected);
    assert_eq!(config.storage_resolution(), Resolution::Second);
    let collector = Collector::new(config);
    assert_eq!(collector.default_dimensions(), expected);
    let dimensions = collector.dimensions(&key("m", &[("z", "1"), ("a", "9")]));
    assert_eq!(dimensions[..4], expected[..]);
    assert_eq!(dimensions[4..], [dimension("z", "1"), dimension("a", "9")]);
}

#[test]
fn default_dimensions_are_ordered_as_in_a_btree_map() {
    let names = ["", "a", "ab", "b", "z", "Z", "\u{e9}", "\u{ffff}", "\u{10000}", "~", "0"];
    let mut map = std::collections::BTreeMap::new();
    let mut entries = Vec::new();
    for (i, name) in names.iter().chain(names.iter().rev()).enumerate() {
        map.insert(name.to_string(), i.to_string());
        entries.push(dimension(name, &i.to_string()));
    }
    let expected: Vec<Dimension> = map.iter().map(|(name, value)| dimension(name, value)).collect();
    assert_eq!(CollectorConfig::new(entries, Resolution::Second).default_dimensions(), expected);
}

#[test]
fn there_are_at_most_ten_dimensions() {
    let many: Vec<Dimension> = (0..12).map(|i| dimension(&format!("d{:02}", i), "v")).collect();
    let collector = Collector::new(CollectorConfig::new(many, Resolution::Second));
    let dimensions = collector.dimensions(&key("m", &[("z", "1")]));
    assert_eq!(dimensions.len(), 10);
    assert_eq!(dimensions[9], dimension("d09", "v"));
    let collector = Collector::new(config(Resolution::Second));
    let labels: Vec<(String, String)> = (0..12).map(|i| (format!("l{:02}", i), "v".to_string())).collect();
    let labels: Vec<(&str, &str)> = labels.iter().map(|(k, v)| (k.as_str(), v.as_str())).collect();
    let dimensions = collector.dimensions(&key("m", &labels));
    assert_eq!(dimensions.len(), 10);
    assert_eq!(dimensions[9], dimension("l08", "v"));
}

#[test]
fn metrics_for_a_key_follow_the_walk() {
    let walk = vec![(9, 1), (u64::MAX, 2), (4, 3)];
    let metrics = metrics_for_key(
        &config(Resolution::Minute),
        &"now".to_string(),
        &key("m", &[]),
        Counter { sample_count: 0, sum: 0 },
        StatisticSet::default(),
        &walk,
    );
    assert_eq!(metrics.len(), 1);
    assert_eq!(metrics[0].timestamp.as_deref(), Some("now"));
    assert_eq!(metrics[0].values, Some(vec![9, 18446744073709551616, 4]));
    assert_eq!(metrics[0].counts, Some(vec![1, 2, 3]));
}

#[test]
fn histogram_parts_keep_every_entry() {
    let mut histogram = HashMap::new();
    for sample in 0..301 {
        histogram.insert(sample, sample as usize + 1);
    }
    let walk = histogram_walk(&histogram);
    assert_eq!(walk.len(), 301);
    let parts = histogram_parts(&walk);
    assert_eq!(parts.iter().map(|p| p.values.len()).collect::<Vec<_>>(), vec![150, 150, 1]);
    let values: Vec<i128> = parts.iter().flat_map(|p| p.values.clone()).collect();
    assert_eq!(values, walk.iter().map(|e| e.0 as i128).collect::<Vec<_>>());
    for (sample, count) in walk {
        assert_eq!(histogram.remove(&sample), Some(count));
    }
    assert!(histogram_parts(&Vec::new()).is_empty());
}

#[test]
fn the_clock_decides_the_period() {
    let mut collector = Collector::new(config(Resolution::Second));
    collector.accept(Message::Datum(Datum::increment_counter(key("c", &[]), 1))).unwrap();
    collector.accept_datum(Datum::increment_counter(key("c", &[]), 1)).unwrap();
    assert!(batch(&mut collector, 1_600_000_000).is_empty());
    let sum: i128 = batch(&mut collector, u64::MAX).iter().map(|m| m.statistic_values.unwrap().sum).sum();
    assert_eq!(sum, 2);
}

#[test]
fn a_regular_send_happens_now() {
    match Message::regular_send(Resolution::Minute).unwrap() {
        Message::SendBatch { send_all_before } => {
            assert!(send_all_before > 1_600_000_000);
            assert_eq!((send_all_before + 1) % 60, 0);
        }
        Message::Datum(_) => panic!("a datum"),
    }
}

fn limit_of(result: Result<Message, CollectorError>) -> Result<u64, CollectorError> {
    match result {
        Ok(Message::SendBatch { send_all_before }) => Ok(send_all_before),
        Ok(Message::Datum(_)) => panic!("a datum"),
        Err(error) => Err(error),
    }
}

#[test]
fn there_is_no_regular_send_at_the_epoch() {
    assert_eq!(limit_of(Message::regular_send_when(Some(119), Resolution::Minute)), Ok(59));
    assert_eq!(
        limit_of(Message::regular_send_when(Some(59), Resolution::Minute)),
        Err(CollectorError::NothingBeforeEpoch)
    );
    assert_eq!(limit_of(Message::regular_send_when(None, Resolution::Second)), Err(CollectorError::ClockBeforeEpoch));
    assert_eq!(limit_of(Ok(Message::final_send())), Ok(u64::MAX));
}

#[test]
fn a_clock_before_the_epoch_records_nothing() {
    let mut collector = Collector::new(config(Resolution::Second));
    let result = collector.accept_datum_when(None, Datum::increment_counter(key("c", &[]), 1));
    assert_eq!(result, Err(CollectorError::ClockBeforeEpoch));
    assert!(batch(&mut collector, u64::MAX).is_empty());
}

#[test]
fn a_sum_that_is_too_large_is_not_recorded() {
    let mut collector = Collector::new(config(Resolution::Second));
    let largest = Datum { key: key("c", &[]), value: Value::Counter(u64::MAX) };
    assert_eq!(collector.accept_datum_when(Some(5), largest), Ok(()));
    let one = Datum::increment_counter(key("c", &[]), 1);
    assert!(!collector.has_room_at(5, &one));
    assert!(collector.has_room_at(6, &one));
    assert_eq!(collector.accept_datum_when(Some(5), one), Err(CollectorError::CountTooLarge));
    let metrics = batch(&mut collector, u64::MAX);
    assert_eq!(
        metrics[0].statistic_values,
        Some(StatisticSet {
            sample_count: 1,
            sum: 18446744073709551616,
            maximum: 18446744073709551616,
            minimum: 18446744073709551616,
        })
    );
}

#[test]
fn what_has_no_date_is_not_sent() {
    let mut collector = Collector::new(config(Resolution::Second));
    collector.accept_datum_at(LAST_TIMESTAMP, Datum::increment_counter(key("c", &[]), 1));
    assert!(collector.has_dates_before(u64::MAX));
    collector.accept_datum_at(LAST_TIMESTAMP + 1, Datum::increment_counter(key("c", &[]), 1));
    let result = collector.accept(Message::final_send());
    assert_eq!(result, Err(CollectorError::DateOutOfRange));
    let metrics = batch(&mut collector, LAST_TIMESTAMP + 1);
    assert_eq!(metrics.len(), 1);
    assert_eq!(metrics[0].timestamp.as_deref(), Some("+262142-12-31T23:59:59.000Z"));
}

#[test]
fn a_batch_is_sent_whole() {
    let mut collector = Collector::new(config(Resolution::Second));
    for name in ["a", "b", "c"] {
        for sample in 0..333 {
            collector.accept_datum_at(5, Datum::record_histogram(key(name, &[]), sample));
        }
    }
    let metrics = batch(&mut collector, 6);
    assert_eq!(metrics.len(), 9);
    let requests = put_requests(&metrics, &"space".to_string());
    let sent: Vec<MetricDatum> = requests.into_iter().flat_map(|r| r.metric_data).collect();
    assert_eq!(sent, metrics);
}

#[test]
fn keys_can_be_recorded_in_either_order() {
    let data = || {
        vec![
            (61, Datum::increment_counter(key("c", &[]), 4)),
            (62, Datum::update_gauge(key("g", &[]), -4)),
            (121, Datum::increment_counter(key("c", &[]), 9)),
        ]
    };
    let mut forwards = Collector::new(config(Resolution::Minute));
    for (now, datum) in data() {
        forwards.accept_datum_at(now, datum);
    }
    let mut backwards = Collector::new(config(Resolution::Minute));
    for (now, datum) in data().into_iter().rev() {
        backwards.accept_datum_at(now, datum);
    }
    let (mut one, mut two) = (batch(&mut forwards, u64::MAX), batch(&mut backwards, u64::MAX));
    assert_eq!(one.len(), 3);
    assert_eq!(one[2], two[2]);
    one.sort_by_key(|m| (m.timestamp.clone(), m.metric_name.clone()));
    two.sort_by_key(|m| (m.timestamp.clone(), m.metric_name.clone()));
    assert_eq!(one, two);
}

#[test]
fn nothing_is_given_out_where_nothing_was_recorded() {
    let mut collector = Collector::new(config(Resolution::Minute));
    assert_eq!(collector.accept(Message::final_send()), Ok(None));
    collector.accept_datum_at(60, Datum::increment_counter(key("c", &[]), 0));
    assert_eq!(collector.accept_send_batch(60), None);
    assert_eq!(collector.accept_send_batch(61).map(|metrics| metrics.len()), Some(1));
    assert_eq!(collector.accept_send_batch(61), None);
}

#[test]
fn values_under_one_key_can_be_recorded_in_either_order() {
    let values = [Value::Counter(4), Value::Histogram(7), Value::Gauge(-2), Value::Histogram(7), Value::Counter(9)];
    let mut forwards = Aggregate::default();
    for value in values {
        forwards.record(value);
    }
    let mut backwards = Aggregate::default();
    for value in values.into_iter().rev() {
        backwards.record(value);
    }
    for aggregate in [&forwards, &backwards] {
        assert_eq!((aggregate.counter.sample_count, aggregate.counter.sum), (2, 13));
        assert_eq!(aggregate.gauge, StatisticSet { sample_count: 1, sum: -2, maximum: 0, minimum: -2 });
        assert_eq!(aggregate.histogram.len(), 1);
        assert_eq!(aggregate.histogram[&7], 2);
    }
}

#[test]
fn two_sends_make_one() {
    let filled = || {
        let mut collector = Collector::new(config(Resolution::Minute));
        for now in [60, 130, 190, 250] {
            collector.accept_datum_at(now, Datum::increment_counter(key("c", &[]), now));
            collector.accept_datum_at(now, Datum::record_histogram(key("c", &[]), now));
        }
        collector
    };
    let mut twice = filled();
    let mut metrics = batch(&mut twice, 150);
    assert_eq!(metrics.len(), 4);
    metrics.extend(batch(&mut twice, 200));
    let mut once = filled();
    assert_eq!(metrics, batch(&mut once, 200));
    assert_eq!(metrics.len(), 6);
    assert_eq!(batch(&mut twice, u64::MAX), batch(&mut once, u64::MAX));
}

fn totals(metrics: &[MetricDatum], name: &str) -> (i128, i128) {
    metrics
        .iter()
        .filter(|m| m.metric_name == name && m.unit.as_deref() == Some("Count"))
        .filter_map(|m| m.statistic_values.as_ref())
        .fold((0, 0), |(sum, count), set| (sum + set.sum, count + set.sample_count))
}

#[test]
fn increments_add_up_over_the_periods() {
    let mut collector = Collector::new(config(Resolution::Minute));
    for (now, increment) in [(0, 1), (59, 2), (60, 4), (200, 8), (61, 16), (3600, 32)] {
        collector.accept_datum_at(now, Datum::increment_counter(key("c", &[]), increment));
        collector.accept_datum_at(now, Datum::increment_counter(key("d", &[]), 1000));
        collector.accept_datum_at(now, Datum::update_gauge(key("c", &[]), 500));
    }
    let metrics = collector.accept(Message::final_send()).unwrap().unwrap();
    assert_eq!(metrics.iter().filter(|m| m.metric_name == "c" && m.unit.is_some()).count(), 4);
    assert_eq!(totals(&metrics, "c"), (63, 6));
    assert_eq!(totals(&metrics, "d"), (6000, 6));
    assert_eq!(collector.accept(Message::final_send()), Ok(None));
}

#[test]
fn a_send_in_between_loses_no_increments() {
    let mut collector = Collector::new(config(Resolution::Second));
    for now in [10, 11, 12] {
        collector.accept_datum_at(now, Datum::increment_counter(key("c", &[]), now));
    }
    let first = batch(&mut collector, 12);
    assert_eq!(totals(&first, "c"), (21, 2));
    collector.accept_datum_at(11, Datum::increment_counter(key("c", &[]), 5));
    let second = batch(&mut collector, u64::MAX);
    assert_eq!(totals(&second, "c"), (17, 2));
}

#[test]
fn totals_are_exact_only_as_far_as_doubles_are() {
    let large = 1 << 53;
    let mut apart = Collector::new(config(Resolution::Second));
    apart.accept_datum_at(1, Datum::increment_counter(key("c", &[]), large));
    apart.accept_datum_at(2, Datum::increment_counter(key("c", &[]), 1));
    assert_eq!(totals(&batch(&mut apart, u64::MAX), "c"), (large as i128 + 1, 2));
    let mut together = Collector::new(config(Resolution::Second));
    together.accept_datum_at(1, Datum::increment_counter(key("c", &[]), large));
    together.accept_datum_at(1, Datum::increment_counter(key("c", &[]), 1));
    assert_eq!(totals(&batch(&mut together, u64::MAX), "c"), (large as i128, 2));
}

#[test]
fn periods_start_at_multiples_of_their_length() {
    let mut collector = Collector::new(config(Resolution::Minute));
    for now in [59, 61, 3599] {
        collector.accept_datum_at(now, Datum::record_histogram(key("h", &[]), now));
    }
    let metrics = batch(&mut collector, u64::MAX);
    let timestamps: Vec<&str> = metrics.iter().map(|m| m.timestamp.as_deref().unwrap()).collect();
    assert_eq!(
        timestamps,
        vec!["1970-01-01T00:00:00.000Z", "1970-01-01T00:01:00.000Z", "1970-01-01T00:59:00.000Z"]
    );
    for metric in &metrics {
        assert_eq!(metric.counts, Some(vec![1]));
    }
}
