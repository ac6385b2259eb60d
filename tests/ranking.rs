use rs_ping::pipeline::{display_count, ProbeError, ResultSet};
use rs_ping::ranking::{process_world, sort_by_ping, WorldResult};

fn rec(world_id: i64, average_ping: u64) -> WorldResult {
    process_world(world_id, average_ping)
}

#[test]
fn sort_orders_by_latency() {
    let mut v = vec![rec(1, 500), rec(2, 300), rec(3, 400), rec(4, 100)];
    sort_by_ping(&mut v);
    let pings: Vec<u64> = v.iter().map(|r| r.average_ping).collect();
    assert_eq!(pings, vec![100, 300, 400, 500]);
    for i in 0..v.len() - 1 {
        assert!(v[i].average_ping <= v[i + 1].average_ping);
    }
}

#[test]
fn sort_keeps_insertion_order_of_equal_latencies() {
    let mut v = vec![rec(1, 200), rec(2, 100), rec(3, 200), rec(4, 100), rec(5, 200)];
    sort_by_ping(&mut v);
    let ids: Vec<i64> = v.iter().map(|r| r.world_id).collect();
    assert_eq!(ids, vec![2, 4, 1, 3, 5]);
}

#[test]
fn sort_of_sorted_is_unchanged() {
    let mut v = vec![rec(9, 100), rec(8, 100), rec(7, 250), rec(6, 900)];
    let before = v.clone();
    sort_by_ping(&mut v);
    assert_eq!(v, before);
    sort_by_ping(&mut v);
    assert_eq!(v, before);
}

#[test]
fn sort_of_empty_and_single() {
    let mut v: Vec<WorldResult> = vec![];
    sort_by_ping(&mut v);
    assert!(v.is_empty());
    let mut w = vec![rec(3, 7)];
    sort_by_ping(&mut w);
    assert_eq!(w, vec![rec(3, 7)]);
}

#[test]
fn display_count_formula() {
    assert_eq!(display_count(0, 5), 0);
    assert_eq!(display_count(0, 0), 0);
    assert_eq!(display_count(3, 5), 3);
    assert_eq!(display_count(10, 5), 5);
    assert_eq!(display_count(3, 0), 1);
    assert_eq!(display_count(3, 1), 1);
    assert_eq!(display_count(7, 7), 7);
}

#[test]
fn result_set_ranks_each_step() {
    let mut rs = ResultSet::new();
    assert_eq!(rs.current_best(), None);
    rs.record_probe(10, b"rtt min/avg/max/mdev = 4.0/5.0/6.0/0.5 ms\n").unwrap();
    assert_eq!(rs.current_best(), Some((rec(10, 5000), 1)));
    rs.record_probe(20, b"rtt min/avg/max/mdev = 2.0/3.0/4.0/0.5 ms\n").unwrap();
    assert_eq!(rs.current_best(), Some((rec(20, 3000), 2)));
    rs.record_probe(30, b"unreachable\n").unwrap();
    assert_eq!(rs.current_best(), Some((rec(20, 3000), 2)));
    assert_eq!(rs.len(), 2);
    assert_eq!(rs.get(1), rec(10, 5000));
}

#[test]
fn result_set_rejects_malformed_latency() {
    let mut rs = ResultSet::new();
    rs.record_probe(1, b"min/avg/max/mdev = 1.0/2.0/3.0/0.1 ms").unwrap();
    let r = rs.record_probe(2, b"min/avg/max/mdev = 1.0/2.0.1/3.0/0.1 ms");
    assert_eq!(r, Err(ProbeError::MalformedLatency));
    let r = rs.record_probe(3, b"min/avg/max/mdev = 1.0//3.0/0.1 ms");
    assert_eq!(r, Err(ProbeError::MalformedLatency));
    assert_eq!(rs.len(), 1);
    assert_eq!(rs.get(0), rec(1, 2000));
}

#[test]
fn final_report_truncates_to_count() {
    let mut rs = ResultSet::new();
    for (id, ms) in [(1, "9.0"), (2, "1.0"), (3, "5.0"), (4, "3.0")] {
        let out = format!("min/avg/max/mdev = 0.1/{}/9.9/0.1 ms", ms);
        rs.record_probe(id, out.as_bytes()).unwrap();
    }
    let top = rs.final_report(2);
    assert_eq!(top, vec![rec(2, 1000), rec(4, 3000)]);
    let one = rs.final_report(0);
    assert_eq!(one, vec![rec(2, 1000)]);
    let all = rs.final_report(5);
    assert_eq!(all.len(), 4);
}

#[test]
fn final_report_of_empty_set_is_empty() {
    let mut rs = ResultSet::new();
    assert!(rs.final_report(5).is_empty());
    assert!(rs.final_report(0).is_empty());
}
