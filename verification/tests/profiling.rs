use saba::model::{check_sample_count, curve_degree, falls_back_to_score, model_kind, ModelError, ModelKind};
use saba::profile::{BandwidthValuePercent, ProfileRecord};
use saba::profiler::{JobPoll, ProfileTable, ProfilingJob, ProfilingQueue};
use saba::record::Record;

#[test]
fn test_bandwidth_value_percent() {
    assert_eq!(BandwidthValuePercent::Five.value(), 5);
    assert_eq!(BandwidthValuePercent::Ten.value(), 10);
    assert_eq!(BandwidthValuePercent::TwentyFive.value(), 25);
    assert_eq!(BandwidthValuePercent::Fifty.value(), 50);
    assert_eq!(BandwidthValuePercent::SeventyFive.value(), 75);
    assert_eq!(BandwidthValuePercent::Ninety.value(), 90);
    assert_eq!(BandwidthValuePercent::Hundred.value(), 100);
}

#[test]
fn profile_test_profile_record() {
    let profile_record = ProfileRecord::new(
        "app".to_string(),
        100,
        10,
        BandwidthValuePercent::Fifty,
        1000,
    );
    assert_eq!(profile_record.name(), &"app".to_string());
    assert_eq!(profile_record.dataset_size(), 100);
    assert_eq!(profile_record.number_of_nodes(), 10);
    assert_eq!(profile_record.bw(), &BandwidthValuePercent::Fifty);
    assert_eq!(profile_record.time(), 1000);
}

#[test]
fn record_test_profile_record() {
    let record = Record::new("app".to_string(), 100, 10, 50, 1000);
    assert_eq!(record.name(), &"app".to_string());
    assert_eq!(record.dataset_size(), 100);
    assert_eq!(record.number_of_nodes(), 10);
    assert_eq!(record.bw(), 50);
    assert_eq!(record.time(), 1000);
}

#[test]
fn bandwidth_shares_equal_only_themselves() {
    assert_eq!(BandwidthValuePercent::Ten, BandwidthValuePercent::Ten);
    assert_ne!(BandwidthValuePercent::Ten, BandwidthValuePercent::Ninety);
}

#[test]
fn queue_hands_out_jobs_in_order_until_ended() {
    let mut queue = ProfilingQueue::new();
    assert!(matches!(queue.wait_for_job(), JobPoll::Pending));
    queue.profile(vec![
        ProfilingJob { applications: vec!["a".to_string()] },
        ProfilingJob { applications: vec!["b".to_string(), "c".to_string()] },
    ]);
    queue.profile(vec![ProfilingJob { applications: vec!["d".to_string()] }]);
    match queue.wait_for_job() {
        JobPoll::Ready(job) => assert_eq!(job.applications, vec!["a".to_string()]),
        other => panic!("expected a job, got {other:?}"),
    }
    match queue.wait_for_job() {
        JobPoll::Ready(job) => assert_eq!(job.applications, vec!["b".to_string(), "c".to_string()]),
        other => panic!("expected a job, got {other:?}"),
    }
    match queue.wait_for_job() {
        JobPoll::Ready(job) => assert_eq!(job.applications, vec!["d".to_string()]),
        other => panic!("expected a job, got {other:?}"),
    }
    assert!(matches!(queue.wait_for_job(), JobPoll::Pending));
    queue.end();
    assert!(matches!(queue.wait_for_job(), JobPoll::Closed));
    queue.profile(vec![ProfilingJob { applications: vec!["e".to_string()] }]);
    assert!(matches!(queue.wait_for_job(), JobPoll::Closed));
}

#[test]
fn table_groups_runs_by_application() {
    let mut table = ProfileTable::new();
    assert!(table.is_empty());
    table.ingest_record(Record::new("app1".to_string(), 1, 1, 100, 10));
    table.ingest_record(Record::new("app2".to_string(), 1, 1, 100, 12));
    table.ingest_record(Record::new("app1".to_string(), 1, 1, 50, 25));
    assert!(!table.is_empty());
    assert_eq!(table.len(), 2);
    let (name, runs) = table.group(0);
    assert_eq!(name, "app1");
    assert_eq!(runs.len(), 2);
    assert_eq!(runs[1].bw(), 50);
    let (name, runs) = table.group(1);
    assert_eq!(name, "app2");
    assert_eq!(runs.len(), 1);
}

#[test]
fn sample_counts_for_curves() {
    assert_eq!(
        check_sample_count(2, 1),
        Err(ModelError::NotEnoughSamples { needed: 3, provided: 1 })
    );
    assert_eq!(check_sample_count(2, 3), Ok(()));
    assert_eq!(check_sample_count(0, 1), Ok(()));
    assert_eq!(
        check_sample_count(0, 0),
        Err(ModelError::NotEnoughSamples { needed: 1, provided: 0 })
    );
}

#[test]
fn fallback_and_stored_model_kinds() {
    assert!(falls_back_to_score(&ModelError::SingularMatrix));
    assert!(falls_back_to_score(&ModelError::NotEnoughSamples { needed: 3, provided: 1 }));
    assert!(!falls_back_to_score(&ModelError::InvalidBandwidth));
    assert_eq!(model_kind("curve"), Some(ModelKind::Curve));
    assert_eq!(model_kind("score"), Some(ModelKind::Score));
    assert_eq!(model_kind("Curve"), None);
    assert_eq!(curve_degree(Some(1), 5), 1);
    assert_eq!(curve_degree(None, 3), 2);
    assert_eq!(curve_degree(None, 0), 0);
}
