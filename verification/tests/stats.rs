use loadtest::duration::Duration;
use loadtest::stats::TcpServerStats;

#[test]
fn server_stats_skips_empty_snapshot_if_zero_time() {
    let mut stats = TcpServerStats::new();
    let snapshot = stats.get_snapshot(Duration::from_secs(0));
    assert!(matches!(snapshot, None));
}

#[test]
fn server_stats_skips_empty_snapshot_if_almost_zero_time() {
    let mut stats = TcpServerStats::new();
    let snapshot = stats.get_snapshot(Duration::from_micros(100));
    assert!(matches!(snapshot, None));
}

#[test]
fn server_stats_renders_empty_snapshot_correctly() {
    let mut stats = TcpServerStats::new();
    let snapshot = stats.get_snapshot(Duration::from_secs(1)).unwrap();
    assert_eq!(snapshot, "0 conns, 0 Kb/s in");
    let snapshot = stats.get_snapshot(Duration::from_secs(1)).unwrap();
    assert_eq!(snapshot, "0 conns, 0 Kb/s in");
}

#[test]
fn server_stats_renders_snapshot_with_one_initial_conn_correctly() {
    let mut stats = TcpServerStats::new();
    stats.add_connection();
    let snapshot = stats.get_snapshot(Duration::from_secs(1)).unwrap();
    assert_eq!(snapshot, "1 conns, 0 Kb/s in");
    let snapshot = stats.get_snapshot(Duration::from_secs(1)).unwrap();
    assert_eq!(snapshot, "1 conns, 0 Kb/s in");
    stats.remove_connection();
    let snapshot = stats.get_snapshot(Duration::from_secs(1)).unwrap();
    assert_eq!(snapshot, "0 conns, 0 Kb/s in");
    let snapshot = stats.get_snapshot(Duration::from_secs(1)).unwrap();
    assert_eq!(snapshot, "0 conns, 0 Kb/s in");
}

#[test]
fn server_stats_renders_snapshot_with_one_not_initial_conn_correctly() {
    let mut stats = TcpServerStats::new();
    let snapshot = stats.get_snapshot(Duration::from_secs(1)).unwrap();
    assert_eq!(snapshot, "0 conns, 0 Kb/s in");
    stats.add_connection();
    let snapshot = stats.get_snapshot(Duration::from_secs(1)).unwrap();
    assert_eq!(snapshot, "1 conns, 0 Kb/s in");
    let snapshot = stats.get_snapshot(Duration::from_secs(1)).unwrap();
    assert_eq!(snapshot, "1 conns, 0 Kb/s in");
    stats.remove_connection();
    let snapshot = stats.get_snapshot(Duration::from_secs(1)).unwrap();
    assert_eq!(snapshot, "0 conns, 0 Kb/s in");
    let snapshot = stats.get_snapshot(Duration::from_secs(1)).unwrap();
    assert_eq!(snapshot, "0 conns, 0 Kb/s in");
}

#[test]
fn server_stats_renders_snapshot_with_multiple_not_initial_conn_correctly() {
    let mut stats = TcpServerStats::new();
    let snapshot = stats.get_snapshot(Duration::from_secs(1)).unwrap();
    assert_eq!(snapshot, "0 conns, 0 Kb/s in");
    stats.add_connection();
    let snapshot = stats.get_snapshot(Duration::from_secs(1)).unwrap();
    assert_eq!(snapshot, "1 conns, 0 Kb/s in");
    stats.add_connection();
    let snapshot = stats.get_snapshot(Duration::from_secs(1)).unwrap();
    assert_eq!(snapshot, "2 conns, 0 Kb/s in");
    let snapshot = stats.get_snapshot(Duration::from_secs(1)).unwrap();
    assert_eq!(snapshot, "2 conns, 0 Kb/s in");
    stats.remove_connection();
    let snapshot = stats.get_snapshot(Duration::from_secs(1)).unwrap();
    assert_eq!(snapshot, "1 conns, 0 Kb/s in");
    stats.remove_connection();
    let snapshot = stats.get_snapshot(Duration::from_secs(1)).unwrap();
    assert_eq!(snapshot, "0 conns, 0 Kb/s in");
    let snapshot = stats.get_snapshot(Duration::from_secs(1)).unwrap();
    assert_eq!(snapshot, "0 conns, 0 Kb/s in");
}

#[test]
fn server_stats_renders_snapshot_with_one_initial_conn_and_some_bytes_correctly() {
    let mut stats = TcpServerStats::new();
    stats.add_connection();
    stats.push_received_bytes(15432);
    let snapshot = stats.get_snapshot(Duration::from_secs(1)).unwrap();
    assert_eq!(snapshot, "1 conns, 123 Kb/s in");
    stats.push_received_bytes(124875);
    let snapshot = stats.get_snapshot(Duration::from_secs(1)).unwrap();
    assert_eq!(snapshot, "1 conns, 999 Kb/s in");
    stats.push_received_bytes(1520);
    stats.remove_connection();
    let snapshot = stats.get_snapshot(Duration::from_secs(1)).unwrap();
    assert_eq!(snapshot, "0 conns, 12 Kb/s in");
    let snapshot = stats.get_snapshot(Duration::from_secs(1)).unwrap();
    assert_eq!(snapshot, "0 conns, 0 Kb/s in");
}

#[test]
fn server_stats_renders_snapshot_with_one_not_initial_conn_and_some_bytes_correctly() {
    let mut stats = TcpServerStats::new();
    let snapshot = stats.get_snapshot(Duration::from_secs(1)).unwrap();
    assert_eq!(snapshot, "0 conns, 0 Kb/s in");
    stats.add_connection();
    stats.push_received_bytes(15432);
    let snapshot = stats.get_snapshot(Duration::from_secs(1)).unwrap();
    assert_eq!(snapshot, "1 conns, 123 Kb/s in");
    stats.push_received_bytes(124875);
    let snapshot = stats.get_snapshot(Duration::from_secs(1)).unwrap();
    assert_eq!(snapshot, "1 conns, 999 Kb/s in");
    stats.push_received_bytes(1520);
    stats.remove_connection();
    let snapshot = stats.get_snapshot(Duration::from_secs(1)).unwrap();
    assert_eq!(snapshot, "0 conns, 12 Kb/s in");
    let snapshot = stats.get_snapshot(Duration::from_secs(1)).unwrap();
    assert_eq!(snapshot, "0 conns, 0 Kb/s in");
}

#[test]
fn server_stats_renders_snapshot_with_multiple_not_initial_conn_and_some_bytes_correctly() {
    let mut stats = TcpServerStats::new();
    let snapshot = stats.get_snapshot(Duration::from_secs(1)).unwrap();
    assert_eq!(snapshot, "0 conns, 0 Kb/s in");
    stats.add_connection();
    stats.push_received_bytes(15432);
    let snapshot = stats.get_snapshot(Duration::from_secs(1)).unwrap();
    assert_eq!(snapshot, "1 conns, 123 Kb/s in");
    stats.add_connection();
    stats.push_received_bytes(124875);
    let snapshot = stats.get_snapshot(Duration::from_secs(1)).unwrap();
    assert_eq!(snapshot, "2 conns, 999 Kb/s in");
    stats.push_received_bytes(555555);
    stats.push_received_bytes(555555);
    let snapshot = stats.get_snapshot(Duration::from_secs(2)).unwrap();
    assert_eq!(snapshot, "2 conns, 4 444 Kb/s in");
    stats.push_received_bytes(123456789);
    stats.push_received_bytes(123456789);
    let snapshot = stats.get_snapshot(Duration::from_secs(1)).unwrap();
    assert_eq!(snapshot, "2 conns, 1 975 308 Kb/s in");
    stats.push_received_bytes(100);
    stats.remove_connection();
    stats.push_received_bytes(100);
    let snapshot = stats.get_snapshot(Duration::from_secs(1)).unwrap();
    assert_eq!(snapshot, "1 conns, 1 Kb/s in");
    stats.push_received_bytes(1520);
    stats.remove_connection();
    let snapshot = stats.get_snapshot(Duration::from_secs(1)).unwrap();
    assert_eq!(snapshot, "0 conns, 12 Kb/s in");
    let snapshot = stats.get_snapshot(Duration::from_secs(1)).unwrap();
    assert_eq!(snapshot, "0 conns, 0 Kb/s in");
}
