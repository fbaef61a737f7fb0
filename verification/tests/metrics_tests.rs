use obstore::metrics::{
    assert_legal_key, check_legal_key, Attributes, HistogramObservation, MetricKind,
    Observation, ObservationBucket, RawReporter, Reporter,
};

fn attrs(pairs: &[(&str, &str)]) -> Attributes {
    let mut a = Attributes::new();
    for (k, v) in pairs {
        a.insert(k.to_string(), v.to_string());
    }
    a
}

#[test]
fn legal_keys() {
    assert!(check_legal_key("foo"));
    assert!(check_legal_key("foo_bar_9"));
    assert!(!check_legal_key(""));
    assert!(!check_legal_key("foo sdf"));
    assert!(!check_legal_key("Foo"));
    assert_legal_key("metric_name");
}

#[test]
fn attributes_insert_overrides() {
    let mut a = Attributes::new();
    a.insert("tag1".to_string(), "x".to_string());
    a.insert("tag2".to_string(), "y".to_string());
    a.insert("tag1".to_string(), "z".to_string());
    let pairs = a.iter();
    assert_eq!(pairs.len(), 2);
    assert_eq!(pairs[0], ("tag1".to_string(), "z".to_string()));
    assert_eq!(pairs[1], ("tag2".to_string(), "y".to_string()));
}

#[test]
fn attributes_iterate_in_ascending_key_order() {
    let mut a = Attributes::new();
    a.insert("b".to_string(), "2".to_string());
    a.insert("a".to_string(), "1".to_string());
    a.insert("c".to_string(), "3".to_string());
    let pairs = a.iter();
    assert_eq!(pairs[0], ("a".to_string(), "1".to_string()));
    assert_eq!(pairs[1], ("b".to_string(), "2".to_string()));
    assert_eq!(pairs[2], ("c".to_string(), "3".to_string()));
    // overriding keeps the sorted position
    a.insert("b".to_string(), "9".to_string());
    let pairs = a.iter();
    assert_eq!(pairs.len(), 3);
    assert_eq!(pairs[1], ("b".to_string(), "9".to_string()));
}

#[test]
fn metric_returns_first_set_with_the_name() {
    let mut reporter = RawReporter::new();
    reporter.start_metric("dup".to_string(), "first".to_string(), MetricKind::U64Counter);
    reporter.finish_metric();
    reporter.start_metric("dup".to_string(), "second".to_string(), MetricKind::U64Gauge);
    reporter.finish_metric();
    let found = reporter.metric("dup").unwrap();
    assert_eq!(found.description, "first");
    assert_eq!(found.kind, MetricKind::U64Counter);
}

#[test]
fn reporter_records_observations() {
    let mut reporter = RawReporter::new();
    reporter.start_metric(
        "bar".to_string(),
        "my magic description".to_string(),
        MetricKind::U64Gauge,
    );
    reporter.report_observation(&attrs(&[("tag1", "value")]), Observation::U64Gauge(49));
    reporter.finish_metric();

    reporter.start_metric(
        "foo".to_string(),
        "my magic description".to_string(),
        MetricKind::U64Counter,
    );
    reporter.report_observation(&attrs(&[("tag1", "bar")]), Observation::U64Counter(53));
    reporter.report_observation(&attrs(&[("tag1", "foo")]), Observation::U64Counter(23));
    reporter.finish_metric();

    let observations = reporter.observations();
    assert_eq!(observations.len(), 2);

    let gauge = &observations[0];
    assert_eq!(gauge.metric_name, "bar");
    assert_eq!(gauge.kind, MetricKind::U64Gauge);
    assert_eq!(gauge.observations.len(), 1);
    match gauge.observation(&attrs(&[("tag1", "value")])) {
        Some(Observation::U64Gauge(v)) => assert_eq!(*v, 49),
        _ => panic!("expected the recorded gauge observation"),
    }

    let counter = reporter.metric("foo").unwrap();
    assert_eq!(counter.kind, MetricKind::U64Counter);
    assert_eq!(counter.observations.len(), 2);
    match counter.observation(&attrs(&[("tag1", "foo")])) {
        Some(Observation::U64Counter(v)) => assert_eq!(*v, 23),
        _ => panic!("expected the recorded counter observation"),
    }
    assert!(counter.observation(&attrs(&[("foo", "bar")])).is_none());
    assert!(reporter.metric("unregistered").is_none());
}

#[test]
fn observation_lookup_is_order_insensitive() {
    let mut reporter = RawReporter::new();
    reporter.start_metric("m".to_string(), "d".to_string(), MetricKind::U64Counter);
    reporter.report_observation(
        &attrs(&[("a", "1"), ("b", "2")]),
        Observation::U64Counter(5),
    );
    reporter.finish_metric();
    let set = reporter.metric("m").unwrap();
    // the same mapping, inserted in the other order, finds the observation
    match set.observation(&attrs(&[("b", "2"), ("a", "1")])) {
        Some(Observation::U64Counter(v)) => assert_eq!(*v, 5),
        _ => panic!("expected the observation under reordered attributes"),
    }
    assert!(set.observation(&attrs(&[("a", "1")])).is_none());
    assert!(set.observation(&attrs(&[("a", "1"), ("b", "9")])).is_none());
}

#[test]
fn histogram_sample_count() {
    let h = HistogramObservation {
        total: 60u64,
        buckets: vec![
            ObservationBucket { le: 10u64, count: 2 },
            ObservationBucket { le: 20u64, count: 3 },
            ObservationBucket { le: u64::MAX, count: 4 },
        ],
    };
    assert_eq!(h.sample_count(), 9);
    let empty: HistogramObservation<u64> =
        HistogramObservation { total: 0, buckets: Vec::new() };
    assert_eq!(empty.sample_count(), 0);
}

#[test]
fn duration_observations_carry_nanoseconds() {
    let d = Observation::DurationCounter(1_500_000_000);
    match d {
        Observation::DurationCounter(ns) => assert_eq!(ns, 1_500_000_000),
        _ => panic!("expected a duration counter"),
    }
    let kinds = [
        MetricKind::U64Counter,
        MetricKind::U64Gauge,
        MetricKind::U64Histogram,
        MetricKind::DurationCounter,
        MetricKind::DurationGauge,
        MetricKind::DurationHistogram,
    ];
    assert_eq!(kinds.len(), 6);
}
