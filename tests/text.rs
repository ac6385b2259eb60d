use rs_ping::pipeline::ResultSet;
use rs_ping::ranking::process_world;
use rs_ping::resolver::{get_target_worlds, SelectionMode};
use rs_ping::text::{probe_host, report_line, status_line};

#[test]
fn host_names() {
    assert_eq!(probe_host(20), "world20.runescape.com");
    assert_eq!(probe_host(0), "world0.runescape.com");
    assert_eq!(probe_host(-3), "world-3.runescape.com");
    assert_eq!(probe_host(i64::MIN), "world-9223372036854775808.runescape.com");
}

#[test]
fn report_lines() {
    assert_eq!(report_line(&process_world(20, 3000)), "World 20 (3.0ms)");
    assert_eq!(report_line(&process_world(7, 15234)), "World 7 (15.234ms)");
    assert_eq!(report_line(&process_world(7, 10100)), "World 7 (10.1ms)");
    assert_eq!(report_line(&process_world(7, 1230)), "World 7 (1.23ms)");
    assert_eq!(report_line(&process_world(7, 5)), "World 7 (0.005ms)");
    assert_eq!(report_line(&process_world(7, 0)), "World 7 (0.0ms)");
}

#[test]
fn status_lines() {
    assert_eq!(status_line(None), "No match found");
    assert_eq!(
        status_line(Some((process_world(20, 3000), 12))),
        "Current best match: World 20 (3.0ms); Checked 12 servers"
    );
}

#[test]
fn end_to_end_report() {
    let targets = get_target_worlds(&SelectionMode::Explicit(vec![
        "10".to_string(),
        "20".to_string(),
        "30".to_string(),
    ]))
    .unwrap()
    .0;
    assert_eq!(targets, vec![10, 20, 30]);
    let outputs = ["5.0", "3.0", "4.0"];
    let mut rs = ResultSet::new();
    for (id, avg) in targets.iter().zip(outputs.iter()) {
        let out = format!("rtt min/avg/max/mdev = 1.0/{}/9.0/0.3 ms\n", avg);
        rs.record_probe(*id, out.as_bytes()).unwrap();
    }
    let lines: Vec<String> = rs.final_report(5).iter().map(report_line).collect();
    assert_eq!(lines, vec!["World 20 (3.0ms)", "World 30 (4.0ms)", "World 10 (5.0ms)"]);
}
