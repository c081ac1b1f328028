use omakase::bench::{best_mirror, sort_bench_results, speed_bytes_per_sec, BenchResult};

fn res(mirror: &str, time_ms: Option<u64>) -> BenchResult {
    BenchResult {
        mirror: mirror.to_string(),
        url: format!("http://{mirror}.example"),
        time_ms,
    }
}

// Two mirrors answer in 100 ms and 200 ms, one fails: the order is
// 100 ms, 200 ms, failed, and the first becomes the preferred mirror.
#[test]
fn bench_orders_times_and_failures() {
    let results = vec![
        res("slow", Some(200)),
        res("dead", None),
        res("fast", Some(100)),
    ];
    let sorted = sort_bench_results(&results);
    let order: Vec<String> = sorted.iter().map(|r| r.mirror.clone()).collect();
    assert_eq!(order, vec!["fast", "slow", "dead"]);
    assert_eq!(best_mirror(&sorted).unwrap(), "fast");
}

#[test]
fn bench_keeps_every_result() {
    let results = vec![res("a", Some(5)), res("b", Some(5)), res("c", None)];
    let sorted = sort_bench_results(&results);
    assert_eq!(sorted.len(), 3);
    let mut names: Vec<String> = sorted.iter().map(|r| r.mirror.clone()).collect();
    names.sort();
    assert_eq!(names, vec!["a", "b", "c"]);
    assert_eq!(sorted[2].mirror, "c", "the failure sorts last");
}

#[test]
fn bench_empty_input() {
    let sorted = sort_bench_results(&Vec::new());
    assert!(sorted.is_empty());
    assert!(best_mirror(&sorted).is_none());
}

#[test]
fn speed_is_bytes_per_second() {
    // 1 MiB fetched in 1000 ms: 1048 bytes per ms, scaled by 1024
    assert_eq!(speed_bytes_per_sec(1048576, 1000), 1048 * 1024);
    assert_eq!(speed_bytes_per_sec(0, 10), 0);
    assert_eq!(speed_bytes_per_sec(u64::MAX, 1), u64::MAX);
}
