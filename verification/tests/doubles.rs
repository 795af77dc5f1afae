use metrics_cloudwatch::double::to_double;
use metrics_cloudwatch::{Aggregate, StatisticSet, Value};

fn samples() -> Vec<i64> {
    let mut samples = vec![0, 1, -1, 7, i64::MAX, i64::MIN, i64::MAX - 511, i64::MAX - 512, i64::MAX - 513];
    for shift in 50..63 {
        for offset in -5..6 {
            samples.push((1i64 << shift) + offset);
            samples.push(-(1i64 << shift) + offset);
            samples.push((3i64 << (shift - 1)) + offset * 3);
        }
    }
    samples
}

#[test]
fn conversion_rounds_as_the_machine_does() {
    for n in samples() {
        assert_eq!(to_double(n as i128), (n as f64) as i128, "{}", n);
        assert_eq!(to_double(n as u64 as i128), (n as u64 as f64) as i128, "{}", n);
    }
    assert_eq!(to_double(9007199254740993), 9007199254740992);
    assert_eq!(to_double(9007199254740995), 9007199254740996);
    assert_eq!(to_double(u64::MAX as i128), 18446744073709551616);
}

#[test]
fn conversion_of_a_double_changes_nothing() {
    for n in samples() {
        let double = to_double(n as i128);
        assert_eq!(to_double(double), double);
        assert_eq!(to_double(-double), -double);
    }
}

/// What a gauge comes to with the machine's own doubles.
fn machine_gauge(readings: &[i64]) -> (f64, f64, f64, f64) {
    let mut gauge = (0.0, 0.0, 0.0f64, 0.0f64);
    for reading in readings {
        let value = *reading as f64;
        gauge.0 += 1.0;
        gauge.1 += value;
        gauge.2 = gauge.2.max(value);
        gauge.3 = gauge.3.min(value);
    }
    gauge
}

fn gauge(readings: &[i64]) -> StatisticSet {
    let mut aggregate = Aggregate::default();
    for reading in readings {
        aggregate.record(Value::Gauge(*reading));
    }
    aggregate.gauge
}

#[test]
fn gauges_add_up_as_the_machine_does() {
    let all = samples();
    for end in 0..all.len() {
        let (sample_count, sum, maximum, minimum) = machine_gauge(&all[..end]);
        let gauge = gauge(&all[..end]);
        assert_eq!(gauge.sample_count as f64, sample_count);
        assert_eq!(gauge.sum as f64, sum);
        assert_eq!(gauge.sum, sum as i128);
        assert_eq!(gauge.maximum as f64, maximum);
        assert_eq!(gauge.minimum as f64, minimum);
    }
    let (_, sum, _, _) = machine_gauge(&vec![i64::MAX; 5000]);
    assert_eq!(gauge(&vec![i64::MAX; 5000]).sum, sum as i128);
}

#[test]
fn gauge_extremes_start_from_zero() {
    assert_eq!(gauge(&[]), StatisticSet::default());
    assert_eq!(gauge(&[-5, -3]), StatisticSet { sample_count: 2, sum: -8, maximum: 0, minimum: -5 });
    assert_eq!(gauge(&[4, 9]), StatisticSet { sample_count: 2, sum: 13, maximum: 9, minimum: 0 });
}

#[test]
fn counters_and_histograms_count() {
    let mut aggregate = Aggregate::default();
    for value in [
        Value::Counter(3),
        Value::Histogram(10),
        Value::Gauge(2),
        Value::Counter(0),
        Value::Histogram(11),
        Value::Histogram(10),
    ] {
        assert!(aggregate.has_room_for(value));
        aggregate.record(value);
    }
    assert_eq!((aggregate.counter.sample_count, aggregate.counter.sum), (2, 3));
    assert_eq!(aggregate.histogram.len(), 2);
    assert_eq!(aggregate.histogram[&10], 2);
    assert_eq!(aggregate.histogram[&11], 1);
    assert_eq!(aggregate.gauge.sample_count, 1);
    assert!(aggregate.has_room_for(Value::Counter(u64::MAX - 3)));
    assert!(!aggregate.has_room_for(Value::Counter(u64::MAX - 2)));
}

#[test]
fn small_readings_can_come_in_either_order() {
    assert_eq!(gauge(&[7, -9, 3]), gauge(&[3, 7, -9]));
    let large = 1 << 53;
    let (this, that) = (gauge(&[large, 1, -1]), gauge(&[large, -1, 1]));
    assert_eq!((this.sum, that.sum), (large as i128 - 1, large as i128));
    assert_eq!((this.maximum, this.minimum), (that.maximum, that.minimum));
}
