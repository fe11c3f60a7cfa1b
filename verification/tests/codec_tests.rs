use process_monitor::codec::{decode_report, encode_report};
use process_monitor::record::{build_report, ProcessRecord, Report};

fn small_report() -> Report {
    let top = vec![ProcessRecord {
        pid: 1,
        name: b"a".to_vec(),
        cpu_centi_percent: 150,
        memory_kb: 3,
        timestamp: b"T1".to_vec(),
    }];
    build_report(b"process_monitor".to_vec(), 2, top, b"T0".to_vec())
}

#[test]
fn encode_exact_payload() {
    let payload = encode_report(&small_report());
    let mut expected = String::new();
    expected.push_str("{\"module\":\"process_monitor\",\"process_count\":2,");
    expected.push_str("\"top_processes\":[{\"pid\":1,\"name\":\"a\",\"cpu_usage\":1.50,");
    expected.push_str("\"memory_kb\":3,\"timestamp\":\"T1\"}],\"timestamp\":\"T0\"}");
    assert_eq!(String::from_utf8(payload).unwrap(), expected);
}

#[test]
fn encode_empty_top_list() {
    let report = build_report(b"process_monitor".to_vec(), 0, Vec::new(), b"T0".to_vec());
    let payload = encode_report(&report);
    let expected =
        "{\"module\":\"process_monitor\",\"process_count\":0,\"top_processes\":[],\"timestamp\":\"T0\"}";
    assert_eq!(String::from_utf8(payload).unwrap(), expected);
}

#[test]
fn encode_escapes_quote_and_backslash() {
    let top = vec![ProcessRecord {
        pid: 9,
        name: b"we\"ird\\name".to_vec(),
        cpu_centi_percent: 0,
        memory_kb: 0,
        timestamp: b"T1".to_vec(),
    }];
    let report = build_report(b"process_monitor".to_vec(), 1, top, b"T0".to_vec());
    let payload = String::from_utf8(encode_report(&report)).unwrap();
    assert!(payload.contains("\"name\":\"we\\\"ird\\\\name\""));
}

#[test]
fn encoded_payload_is_json_with_the_schema() {
    let payload = encode_report(&small_report());
    let v: serde_json::Value = serde_json::from_slice(&payload).unwrap();
    assert_eq!(v["module"].as_str().unwrap(), "process_monitor");
    assert_eq!(v["process_count"].as_u64().unwrap(), 2);
    let tops = v["top_processes"].as_array().unwrap();
    assert_eq!(tops.len(), 1);
    assert_eq!(tops[0]["pid"].as_u64().unwrap(), 1);
    assert_eq!(tops[0]["name"].as_str().unwrap(), "a");
    assert!((tops[0]["cpu_usage"].as_f64().unwrap() - 1.5).abs() < 1e-9);
    assert_eq!(tops[0]["memory_kb"].as_u64().unwrap(), 3);
    assert_eq!(tops[0]["timestamp"].as_str().unwrap(), "T1");
    assert_eq!(v["timestamp"].as_str().unwrap(), "T0");
}

fn assert_reports_equal(a: &Report, b: &Report) {
    assert_eq!(a.module, b.module);
    assert_eq!(a.process_count, b.process_count);
    assert_eq!(a.timestamp, b.timestamp);
    assert_eq!(a.top_processes.len(), b.top_processes.len());
    for (x, y) in a.top_processes.iter().zip(b.top_processes.iter()) {
        assert_eq!(x.pid, y.pid);
        assert_eq!(x.name, y.name);
        assert_eq!(x.cpu_centi_percent, y.cpu_centi_percent);
        assert_eq!(x.memory_kb, y.memory_kb);
        assert_eq!(x.timestamp, y.timestamp);
    }
}

#[test]
fn round_trip_decode_then_reencode() {
    let report = small_report();
    let payload = encode_report(&report);
    let decoded = decode_report(&payload).unwrap();
    assert_reports_equal(&report, &decoded);
    assert_eq!(encode_report(&decoded), payload);
}

#[test]
fn round_trip_with_escapes_and_empty_list() {
    let top = vec![ProcessRecord {
        pid: 0,
        name: b"q\"b\\s".to_vec(),
        cpu_centi_percent: 9990,
        memory_kb: 12,
        timestamp: b"2024-01-01T00:00:00+00:00".to_vec(),
    }];
    let with_rec = build_report(b"process_monitor".to_vec(), 3, top, b"T\"0\\".to_vec());
    let decoded = decode_report(&encode_report(&with_rec)).unwrap();
    assert_reports_equal(&with_rec, &decoded);

    let empty = build_report(b"process_monitor".to_vec(), 0, Vec::new(), b"T0".to_vec());
    let decoded_empty = decode_report(&encode_report(&empty)).unwrap();
    assert_reports_equal(&empty, &decoded_empty);
}

#[test]
fn encode_escapes_control_bytes_as_unicode() {
    let top = vec![ProcessRecord {
        pid: 5,
        name: vec![b'a', 0x01, b'b', 0x1f, b'\t'],
        cpu_centi_percent: 25,
        memory_kb: 1,
        timestamp: b"T1".to_vec(),
    }];
    let report = build_report(b"m".to_vec(), 1, top, b"T0".to_vec());
    let payload = String::from_utf8(encode_report(&report)).unwrap();
    assert!(payload.contains("\"name\":\"a\\u0001b\\u001f\\u0009\""));
    let v: serde_json::Value = serde_json::from_str(&payload).unwrap();
    assert_eq!(
        v["top_processes"][0]["name"].as_str().unwrap(),
        "a\u{1}b\u{1f}\t"
    );
    let decoded = decode_report(&payload.into_bytes()).unwrap();
    assert_reports_equal(&report, &decoded);
}

#[test]
fn decode_rejects_malformed_payloads() {
    assert!(decode_report(&Vec::new()).is_none());
    assert!(decode_report(&b"{}".to_vec()).is_none());
    let good = encode_report(&small_report());
    let mut truncated = good.clone();
    truncated.pop();
    assert!(decode_report(&truncated).is_none());
    let mut trailing = good.clone();
    trailing.push(b' ');
    assert!(decode_report(&trailing).is_none());
}

#[test]
fn encode_large_numbers() {
    let top = vec![ProcessRecord {
        pid: u32::MAX,
        name: b"big".to_vec(),
        cpu_centi_percent: 12345, // 123.45 percent, more than one core
        memory_kb: u64::MAX,
        timestamp: b"T1".to_vec(),
    }];
    let report = build_report(b"m".to_vec(), u64::MAX, top, b"T0".to_vec());
    let payload = String::from_utf8(encode_report(&report)).unwrap();
    assert!(payload.contains("\"pid\":4294967295"));
    assert!(payload.contains("\"cpu_usage\":123.45"));
    assert!(payload.contains("\"memory_kb\":18446744073709551615"));
    assert!(payload.contains("\"process_count\":18446744073709551615"));
}
