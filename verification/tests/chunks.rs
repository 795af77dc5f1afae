use metrics_cloudwatch::chunk::{MAX_CW_METRICS_PER_CALL, MAX_CW_METRICS_PUT_SIZE};
use metrics_cloudwatch::histogram::MAX_HISTOGRAM_VALUES;
use metrics_cloudwatch::{
    count_option_vec, metric_size, metrics_chunks, put_requests, Dimension, MetricDatum, StatisticSet,
};
use proptest::strategy::Strategy;
use proptest::test_runner::{Config, TestRunner};

fn numbers() -> impl Strategy<Value = Option<Vec<i128>>> {
    proptest::collection::vec(proptest::num::f64::ANY.prop_map(|x| x as i128), 1..MAX_HISTOGRAM_VALUES).prop_map(Some)
}

fn metrics() -> impl Strategy<Value = Vec<MetricDatum>> {
    let datum = (
        numbers(),
        numbers(),
        proptest::collection::vec(("name", "value").prop_map(|(name, value)| Dimension { name, value }), 1..6)
            .prop_map(Some),
    )
        .prop_map(move |(counts, values, dimensions)| MetricDatum {
            counts,
            values,
            dimensions,
            metric_name: "test".into(),
            statistic_values: Some(StatisticSet::default()),
            storage_resolution: Some(1),
            timestamp: Some("1970-01-01T00:00:00.000Z".into()),
            value: Some(1),
            unit: Some("Count".into()),
        });
    proptest::collection::vec(datum, 1..100)
}

#[test]
fn chunks_fit_in_cloudwatch_constraints() {
    let config = Config { cases: 30, failure_persistence: None, ..Config::default() };
    let mut runner = TestRunner::new(config);
    runner
        .run(&metrics(), |metrics| {
            for metric_data in metrics_chunks(&metrics) {
                assert!(
                    metric_data.len() > 0 && metric_data.len() < MAX_CW_METRICS_PER_CALL,
                    "Sending too many metrics per call: {}",
                    metric_data.len()
                );
                let estimated_size = metric_data.iter().map(metric_size).sum::<usize>();
                assert!(
                    estimated_size < MAX_CW_METRICS_PUT_SIZE,
                    "{} >= {}",
                    estimated_size,
                    MAX_CW_METRICS_PUT_SIZE
                );
            }
            Ok(())
        })
        .unwrap();
}

fn metric(name: &str, values: usize) -> MetricDatum {
    MetricDatum {
        counts: Some(vec![1; values]),
        values: Some((0..values as i128).collect()),
        dimensions: None,
        metric_name: name.into(),
        statistic_values: None,
        storage_resolution: Some(1),
        timestamp: None,
        value: None,
        unit: None,
    }
}

#[test]
fn absent_vectors_count_nothing() {
    assert_eq!(count_option_vec::<u8>(&None), 0);
    assert_eq!(count_option_vec(&Some(Vec::<u8>::new())), 0);
    assert_eq!(count_option_vec(&Some(vec![7, 8, 9])), 3);
}

#[test]
fn metric_size_counts_elements() {
    let mut datum = metric("m", 4);
    assert_eq!(metric_size(&datum), 60 * (6 + 4 + 4));
    datum.dimensions = Some(vec![Dimension { name: "a".into(), value: "b".into() }]);
    assert_eq!(metric_size(&datum), 60 * (6 + 4 + 4 + 1));
    datum.values = None;
    datum.counts = None;
    datum.dimensions = None;
    assert_eq!(metric_size(&datum), 360);
}

#[test]
fn small_metrics_are_split_by_number() {
    let metrics: Vec<MetricDatum> = (0..45).map(|i| metric(&format!("m{}", i), 1)).collect();
    let chunks = metrics_chunks(&metrics);
    assert_eq!(chunks.iter().map(|c| c.len()).collect::<Vec<_>>(), vec![19, 19, 7]);
    assert_eq!(chunks.concat(), metrics);
}

#[test]
fn the_smallest_metrics_stay_below_the_number() {
    let metrics: Vec<MetricDatum> = (0..20)
        .map(|i| MetricDatum {
            dimensions: Some(vec![Dimension { name: "name".into(), value: "value".into() }]),
            ..metric(&format!("m{}", i), 1)
        })
        .collect();
    assert_eq!(metric_size(&metrics[0]), 540);
    let chunks = metrics_chunks(&metrics);
    assert_eq!(chunks.iter().map(|c| c.len()).collect::<Vec<_>>(), vec![19, 1]);
    assert_eq!(metrics_chunks(&metrics[..19]).len(), 1);
}

#[test]
fn large_metrics_are_split_by_size() {
    // 60 * (6 + 2 * 150) = 18360, so that two fit and three do not.
    let metrics: Vec<MetricDatum> = (0..5).map(|i| metric(&format!("m{}", i), 150)).collect();
    let chunks = metrics_chunks(&metrics);
    assert_eq!(chunks.iter().map(|c| c.len()).collect::<Vec<_>>(), vec![2, 2, 1]);
    assert_eq!(chunks.concat(), metrics);
}

#[test]
fn the_largest_request_is_filled_to_the_last_element() {
    // 60 * (6 + 2 * 330) = 39960 fits, one element more does not.
    let full = metric("m", 330);
    assert_eq!(metric_size(&full), 39960);
    assert_eq!(metrics_chunks(&[full]).len(), 1);
    let mut over = metric("m", 330);
    over.dimensions = Some(vec![Dimension { name: "a".into(), value: "b".into() }]);
    assert_eq!(metric_size(&over), 40020);
    assert_eq!(metrics_chunks(&[over]).len(), 0);
}

#[test]
fn a_metric_that_is_too_large_ends_the_requests() {
    let metrics = vec![metric("a", 1), metric("b", 1000), metric("c", 1)];
    let chunks = metrics_chunks(&metrics);
    assert_eq!(chunks.len(), 1);
    assert_eq!(chunks[0], vec![metric("a", 1)]);
    assert!(metrics_chunks(&[]).is_empty());
}

#[test]
fn requests_carry_the_namespace() {
    let metrics: Vec<MetricDatum> = (0..21).map(|i| metric(&format!("m{}", i), 1)).collect();
    let requests = put_requests(&metrics, &"space".to_string());
    assert_eq!(requests.len(), 2);
    assert_eq!(requests[0].metric_data.len(), 19);
    assert_eq!(requests[1].metric_data, vec![metric("m19", 1), metric("m20", 1)]);
    assert_eq!(requests[0].namespace, "space");
    assert_eq!(requests[1].namespace, "space");
}

#[test]
fn no_request_could_take_the_next_metric() {
    let metrics: Vec<MetricDatum> = (0..60).map(|i| metric(&format!("m{}", i), (i * 37) % 150)).collect();
    let chunks = metrics_chunks(&metrics);
    assert_eq!(chunks.concat(), metrics);
    for pair in chunks.windows(2) {
        let size = pair[0].iter().map(metric_size).sum::<usize>() + metric_size(&pair[1][0]);
        assert!(pair[0].len() + 1 == MAX_CW_METRICS_PER_CALL || size > MAX_CW_METRICS_PUT_SIZE);
    }
}
