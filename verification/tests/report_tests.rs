use process_monitor::record::{build_report, ProcessRecord};
use process_monitor::tick::{make_report, module_name};

fn rec(pid: u32, cpu_centi: u64) -> ProcessRecord {
    ProcessRecord {
        pid,
        name: b"proc".to_vec(),
        cpu_centi_percent: cpu_centi,
        memory_kb: 2048,
        timestamp: b"2024-01-01T00:00:00+00:00".to_vec(),
    }
}

#[test]
fn module_name_is_constant() {
    assert_eq!(module_name(), b"process_monitor".to_vec());
}

#[test]
fn from_sample_keeps_fields_and_converts_memory() {
    let r = ProcessRecord::from_sample(
        42,
        b"worker".to_vec(),
        1234,
        10_485_760, // bytes
        b"2024-06-01T10:00:00+02:00".to_vec(),
    );
    assert_eq!(r.pid, 42);
    assert_eq!(r.name, b"worker".to_vec());
    assert_eq!(r.cpu_centi_percent, 1234);
    assert_eq!(r.memory_kb, 10240);
    assert_eq!(r.timestamp, b"2024-06-01T10:00:00+02:00".to_vec());
}

#[test]
fn built_report_counts_at_least_its_top() {
    let top = vec![rec(1, 900), rec(2, 500), rec(3, 100)];
    let report = build_report(b"process_monitor".to_vec(), 57, top, b"t".to_vec());
    assert!(report.process_count as usize >= report.top_processes.len());
    assert_eq!(report.process_count, 57);
    assert_eq!(report.top_processes.len(), 3);
}

#[test]
fn made_report_counts_at_least_its_top() {
    let records = vec![rec(1, 10), rec(2, 20)];
    let report = make_report(&records, 5);
    assert!(report.process_count as usize >= report.top_processes.len());
    assert_eq!(report.module, b"process_monitor".to_vec());
}

#[test]
fn made_report_timestamp_is_plain_ascii() {
    let records = vec![rec(1, 10)];
    let report = make_report(&records, 1);
    assert!(report.timestamp.len() >= 25);
    for &b in report.timestamp.iter() {
        assert!((0x20..0x7f).contains(&b));
        assert_ne!(b, b'"');
        assert_ne!(b, b'\\');
    }
}

#[test]
fn duplicate_has_equal_fields() {
    let r = rec(7, 777);
    let d = r.duplicate();
    assert_eq!(d.pid, r.pid);
    assert_eq!(d.name, r.name);
    assert_eq!(d.cpu_centi_percent, r.cpu_centi_percent);
    assert_eq!(d.memory_kb, r.memory_kb);
    assert_eq!(d.timestamp, r.timestamp);
}
