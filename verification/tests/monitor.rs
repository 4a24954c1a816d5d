use cmdshiftai::context::{ContextStore, MAX_CONTEXTS};
use cmdshiftai::stats::{
    add_wrapped, index_of, OperationStats, OperationType, OperationStatsResult, PerformanceMonitor,
};

#[test]
fn fresh_counters_wait_for_the_first_operation() {
    let s = OperationStats::default();
    assert_eq!(
        s,
        OperationStats {
            count: 0,
            total_duration_us: 0,
            min_duration_us: u64::MAX,
            max_duration_us: 0,
            bytes_processed: 0
        }
    );
    assert_eq!(
        s.result(),
        OperationStatsResult {
            count: 0,
            total_time_us: 0,
            average_time_us: 0,
            min_time_us: 0,
            max_time_us: 0,
            bytes_processed: 0
        }
    );
}

#[test]
fn counters_add_up() {
    let mut s = OperationStats::default();
    s.record(30, 100);
    s.record(10, 50);
    s.record(25, 0);
    assert_eq!(
        s.result(),
        OperationStatsResult {
            count: 3,
            total_time_us: 65,
            average_time_us: 21,
            min_time_us: 10,
            max_time_us: 30,
            bytes_processed: 150
        }
    );
}

#[test]
fn counters_wrap_around() {
    assert_eq!(add_wrapped(u64::MAX, 1), 0);
    assert_eq!(add_wrapped(u64::MAX, u64::MAX), u64::MAX - 1);
    assert_eq!(add_wrapped(5, 6), 11);
    assert_eq!(add_wrapped(0, u64::MAX), u64::MAX);
    let mut s = OperationStats::default();
    s.record(u64::MAX, u64::MAX);
    s.record(2, 3);
    assert_eq!(s.total_duration_us, 1);
    assert_eq!(s.bytes_processed, 2);
    assert_eq!(s.min_duration_us, 2);
    assert_eq!(s.max_duration_us, u64::MAX);
}

#[test]
fn kinds_have_their_places() {
    let kinds = [
        OperationType::ReadFile,
        OperationType::WriteFile,
        OperationType::Stat,
        OperationType::ReadDir,
        OperationType::Watch,
        OperationType::Delete,
        OperationType::Rename,
        OperationType::Copy,
    ];
    for (i, k) in kinds.iter().enumerate() {
        assert_eq!(index_of(*k), i);
    }
}

#[test]
fn monitor_counts_each_kind_apart() {
    let mut m = PerformanceMonitor::new();
    assert_eq!(m.get_operation_stats(OperationType::ReadFile), None);
    let mut h = m.start_operation(OperationType::ReadFile);
    assert_eq!(h.bytes, 0);
    h.set_bytes(4096);
    h.complete(&mut m, 120);
    let h = m.start_operation(OperationType::ReadFile);
    h.complete(&mut m, 80);
    m.count_operation(OperationType::Stat, 7, 0);
    let r = m.get_operation_stats(OperationType::ReadFile).unwrap();
    assert_eq!((r.count, r.total_time_us, r.average_time_us), (2, 200, 100));
    assert_eq!((r.min_time_us, r.max_time_us, r.bytes_processed), (80, 120, 4096));
    let r = m.get_operation_stats(OperationType::Stat).unwrap();
    assert_eq!((r.count, r.total_time_us, r.min_time_us, r.max_time_us), (1, 7, 7, 7));
    assert_eq!(m.get_operation_stats(OperationType::Copy), None);
    assert_eq!(m.active_operations(), 2);
}

#[test]
fn monitor_estimates_cpu_usage() {
    let mut m = PerformanceMonitor::new();
    assert_eq!(m.estimate_cpu_usage(), 0);
    for _ in 0..7 {
        m.start_operation(OperationType::Watch);
    }
    assert_eq!(m.estimate_cpu_usage(), 14);
    for _ in 0..43 {
        m.start_operation(OperationType::Watch);
    }
    assert_eq!(m.estimate_cpu_usage(), 100);
    m.start_operation(OperationType::Watch);
    assert_eq!(m.estimate_cpu_usage(), 100);
}

#[test]
fn monitor_counts_the_cache_and_clears() {
    let mut m = PerformanceMonitor::new();
    m.record_cache_hit();
    m.record_cache_hit();
    m.record_cache_miss();
    m.update_cache_size(2048);
    m.count_operation(OperationType::Delete, 5, 1);
    m.start_operation(OperationType::Delete);
    m.record_memory_sample(10);
    assert_eq!((m.cache_hits(), m.cache_misses(), m.cache_size_bytes()), (2, 1, 2048));
    m.clear_stats();
    assert_eq!((m.cache_hits(), m.cache_misses(), m.cache_size_bytes()), (0, 0, 2048));
    assert_eq!(m.active_operations(), 0);
    assert_eq!(m.get_operation_stats(OperationType::Delete), None);
}

#[test]
fn monitor_keeps_the_latest_memory_samples() {
    let mut m = PerformanceMonitor::new();
    for i in 0..200 {
        m.record_memory_sample(i);
    }
    m.clear_stats();
    m.record_memory_sample(1);
    assert_eq!(m.cache_hits(), 0);
}

#[test]
fn store_finds_what_was_stored() {
    let mut store: ContextStore<u32> = ContextStore::new();
    assert!(store.get("a").is_none());
    store.cache("a".to_string(), 1);
    store.cache("b".to_string(), 2);
    store.cache("a".to_string(), 3);
    assert_eq!(store.get("a"), Some(&3));
    assert_eq!(store.get("b"), Some(&2));
    assert!(store.get("c").is_none());
    assert_eq!(store.len(), 2);
}

#[test]
fn store_makes_room_for_the_newest() {
    let mut store: ContextStore<usize> = ContextStore::new();
    for i in 0..MAX_CONTEXTS {
        store.cache(format!("k{}", i), i);
    }
    assert_eq!(store.len(), 100);
    assert_eq!(store.get("k0"), Some(&0));
    store.cache("new".to_string(), 1000);
    assert_eq!(store.len(), 100);
    assert!(store.get("k0").is_none());
    assert_eq!(store.get("k1"), Some(&1));
    assert_eq!(store.get("new"), Some(&1000));
    // A full store makes room even for a key it holds.
    store.cache("k5".to_string(), 55);
    assert_eq!(store.len(), 99);
    assert!(store.get("k1").is_none());
    assert_eq!(store.get("k5"), Some(&55));
}

#[test]
fn held_counters_have_a_count_and_an_average_between_the_extremes() {
    let mut m = PerformanceMonitor::new();
    let times = [40u64, 7, 7, 1000, 3, 58];
    for (i, t) in times.iter().enumerate() {
        let mut h = m.start_operation(OperationType::Rename);
        h.set_bytes(10);
        h.complete(&mut m, *t);
        let s = m.get_operation_stats(OperationType::Rename).unwrap();
        assert_eq!(s.count, i as u64 + 1);
        assert!(s.count >= 1);
        assert_eq!(s.average_time_us, s.total_time_us / s.count);
        assert!(s.min_time_us <= s.average_time_us && s.average_time_us <= s.max_time_us);
        assert!(s.min_time_us <= *t && *t <= s.max_time_us);
    }
    let s = m.get_operation_stats(OperationType::Rename).unwrap();
    assert_eq!((s.total_time_us, s.average_time_us, s.min_time_us, s.max_time_us), (1115, 185, 3, 1000));
    assert_eq!(s.bytes_processed, 60);
    m.clear_stats();
    assert_eq!(m.get_operation_stats(OperationType::Rename), None);
}

#[test]
fn counters_of_a_kind_are_found_again_and_replaced() {
    let mut m = PerformanceMonitor::new();
    assert!(m.get_operation_stats(OperationType::Stat).is_none());
    m.count_operation(OperationType::Stat, 10, 100);
    let once = m.get_operation_stats(OperationType::Stat).unwrap();
    assert_eq!((once.count, once.total_time_us, once.bytes_processed), (1, 10, 100));
    m.count_operation(OperationType::Stat, 30, 5);
    let twice = m.get_operation_stats(OperationType::Stat).unwrap();
    assert_eq!((twice.count, twice.total_time_us, twice.bytes_processed), (2, 40, 105));
    assert_eq!((twice.min_time_us, twice.average_time_us, twice.max_time_us), (10, 20, 30));
    assert!(m.get_operation_stats(OperationType::Copy).is_none());
    m.clear_stats();
    assert!(m.get_operation_stats(OperationType::Stat).is_none());
    m.count_operation(OperationType::Stat, 7, 0);
    assert_eq!(m.get_operation_stats(OperationType::Stat).unwrap().count, 1);
}
