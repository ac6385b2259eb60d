use rs_ping::pipeline::ResultSet;
use rs_ping::ranking::process_world;
use rs_ping::summary::{extract_latencies, parse_latency, summary_avg_fields};

#[test]
fn extracts_avg_of_summary_line() {
    let out = b"round-trip min/avg/max/mdev = 10.1/15.234/20.0/2.0 ms";
    assert_eq!(summary_avg_fields(out), vec![b"15.234".to_vec()]);
    assert_eq!(extract_latencies(out), Some(vec![15234]));
    let mut rs = ResultSet::new();
    rs.record_probe(42, out).unwrap();
    assert_eq!(rs.len(), 1);
    assert_eq!(rs.get(0), process_world(42, 15234));
}

#[test]
fn two_summary_lines_give_two_records() {
    let out = b"min/avg/max/mdev = 1.0/7.5/9.0/0.2 ms\nmin/avg/max/mdev = 1.0/2.25/3.0/0.2 ms\n";
    assert_eq!(extract_latencies(out), Some(vec![7500, 2250]));
    let mut rs = ResultSet::new();
    rs.record_probe(5, out).unwrap();
    assert_eq!(rs.len(), 2);
    assert_eq!(rs.get(0), process_world(5, 2250));
    assert_eq!(rs.get(1), process_world(5, 7500));
}

#[test]
fn output_without_summary_gives_nothing() {
    assert_eq!(extract_latencies(b""), Some(vec![]));
    assert_eq!(extract_latencies(b"ping: unknown host world999.runescape.com\n"), Some(vec![]));
    assert_eq!(extract_latencies(b"min/avg/max/mdev = 1.0/2.0"), Some(vec![]));
    assert_eq!(extract_latencies(b"min/avg/max = 1.0/2.0/3.0"), Some(vec![]));
}

#[test]
fn summary_inside_non_text_bytes_is_found() {
    let mut out = vec![0xff, 0xfe, b'\n'];
    out.extend_from_slice(b"min/avg/max/mdev = 0.5/0.75/1.0/0.1 ms");
    out.push(0xc3);
    assert_eq!(extract_latencies(&out), Some(vec![750]));
}

#[test]
fn last_field_may_run_to_the_end() {
    assert_eq!(summary_avg_fields(b"min/avg/max/mdev = 1/2/3/4"), vec![b"2".to_vec()]);
    assert_eq!(summary_avg_fields(b"min/avg/max/mdev = 1/2/3/"), vec![b"2".to_vec()]);
}

#[test]
fn parses_latency_fields() {
    assert_eq!(parse_latency(b"15.234"), Some(15234));
    assert_eq!(parse_latency(b"3.0"), Some(3000));
    assert_eq!(parse_latency(b"3"), Some(3000));
    assert_eq!(parse_latency(b"5."), Some(5000));
    assert_eq!(parse_latency(b".5"), Some(500));
    assert_eq!(parse_latency(b"0.0419"), Some(41));
    assert_eq!(parse_latency(b"007.1"), Some(7100));
    assert_eq!(parse_latency(b"18446744073709551.615"), Some(u64::MAX));
}

#[test]
fn rejects_malformed_latency_fields() {
    assert_eq!(parse_latency(b""), None);
    assert_eq!(parse_latency(b"."), None);
    assert_eq!(parse_latency(b"1.2.3"), None);
    assert_eq!(parse_latency(b"1a"), None);
    assert_eq!(parse_latency(b"18446744073709552"), None);
    assert_eq!(parse_latency(b"18446744073709551.616"), None);
    assert_eq!(parse_latency(b"99999999999999999999999"), None);
}
