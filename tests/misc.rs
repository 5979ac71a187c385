use kvs::engine::Engine;
use kvs::error::StoreError;
use kvs::files::{generation_of, log_file_name, sorted_generations};
use kvs::pool::{PoolAction, Supervisor};
use kvs::sled_engine::{lookup_result, removal_result, Sled};

#[test]
fn segment_file_names() {
    assert_eq!(log_file_name(0), "0.log");
    assert_eq!(log_file_name(42), "42.log");
    assert_eq!(generation_of("42.log"), Some(42));
    assert_eq!(generation_of("18446744073709551615.log"), Some(u64::MAX));
    assert_eq!(generation_of("18446744073709551616.log"), None);
    assert_eq!(generation_of(".log"), None);
    assert_eq!(generation_of("4a.log"), None);
    assert_eq!(generation_of("42.txt"), None);
    assert_eq!(generation_of("engine"), None);
    assert_eq!(generation_of("0.log"), Some(0));
    assert_eq!(generation_of("01.log"), Some(1));
    assert_eq!(generation_of("007.log"), Some(7));
    assert_eq!(generation_of("+7.log"), Some(7));
    assert_eq!(generation_of("7.log.log"), Some(7));
    assert_eq!(generation_of("+.log"), None);
    assert_eq!(generation_of("-7.log"), None);
    assert_eq!(generation_of("7.LOG"), None);
    assert_eq!(generation_of(".log.log"), None);
}

#[test]
fn generations_sorted_and_distinct() {
    let names: Vec<String> = ["3.log", "engine", "1.log", "10.log", "03.log", "x.log"]
        .iter()
        .map(|s| s.to_string())
        .collect();
    assert_eq!(sorted_generations(&names), vec![1, 3, 10]);
    let zeros: Vec<String> = ["01.log", "1.log", "+1.log", "02.log.log"].iter().map(|s| s.to_string()).collect();
    assert_eq!(sorted_generations(&zeros), vec![1, 2]);
    assert_eq!(sorted_generations(&Vec::new()), Vec::<u64>::new());
}

#[test]
fn pool_replaces_faulted_workers() {
    let mut s = Supervisor::new(4);
    assert_eq!(s.live_workers(), 4);
    for _ in 0..10 {
        assert_eq!(s.worker_stopped(true), PoolAction::Replace);
        assert_eq!(s.live_workers(), 3);
        s.worker_started();
        assert_eq!(s.live_workers(), 4);
    }
    assert_eq!(s.worker_stopped(false), PoolAction::Shrink);
    assert_eq!(s.live_workers(), 3);
}

#[test]
fn sled_results() {
    assert!(matches!(removal_result(None), Err(StoreError::KeyNotFound)));
    assert!(removal_result(Some(vec![1])).is_ok());
    assert_eq!(lookup_result(Some(b"hi".to_vec())).unwrap(), Some("hi".to_string()));
    assert_eq!(lookup_result(None).unwrap(), None);
    assert!(matches!(lookup_result(Some(vec![0xff])), Err(StoreError::Serialization)));
}

#[test]
fn sled_backend_set_get_remove() {
    let db = sled::Config::new().temporary(true).open().unwrap();
    let mut engine = Sled::new(db);
    engine.set("a".to_string(), "1".to_string()).unwrap();
    assert_eq!(engine.get("a".to_string()).unwrap(), Some("1".to_string()));
    engine.remove("a".to_string()).unwrap();
    assert_eq!(engine.get("a".to_string()).unwrap(), None);
    assert!(matches!(engine.remove("a".to_string()), Err(StoreError::KeyNotFound)));
}
