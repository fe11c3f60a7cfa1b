use process_monitor::rank::rank;
use process_monitor::record::ProcessRecord;
use process_monitor::tick::make_report;

fn rec(pid: u32, name: &str, cpu_centi: u64) -> ProcessRecord {
    ProcessRecord {
        pid,
        name: name.as_bytes().to_vec(),
        cpu_centi_percent: cpu_centi,
        memory_kb: 1024,
        timestamp: b"2024-01-01T00:00:00+00:00".to_vec(),
    }
}

#[test]
fn scenario_three_records_full_order() {
    // usages 10.5, 99.9, 0.0 named A, B, C; N = 10
    let records = vec![rec(1, "A", 1050), rec(2, "B", 9990), rec(3, "C", 0)];
    let ranked = rank(&records, 10);
    assert_eq!(ranked.len(), 3);
    assert_eq!(ranked[0].name, b"B".to_vec());
    assert_eq!(ranked[0].cpu_centi_percent, 9990);
    assert_eq!(ranked[1].name, b"A".to_vec());
    assert_eq!(ranked[1].cpu_centi_percent, 1050);
    assert_eq!(ranked[2].name, b"C".to_vec());
    assert_eq!(ranked[2].cpu_centi_percent, 0);
}

#[test]
fn rank_length_is_min() {
    let records = vec![rec(1, "a", 300), rec(2, "b", 100), rec(3, "c", 200)];
    assert_eq!(rank(&records, 0).len(), 0);
    assert_eq!(rank(&records, 2).len(), 2);
    assert_eq!(rank(&records, 3).len(), 3);
    assert_eq!(rank(&records, 10).len(), 3);
    let empty: Vec<ProcessRecord> = Vec::new();
    assert_eq!(rank(&empty, 10).len(), 0);
}

#[test]
fn rank_sorted_non_increasing() {
    let records = vec![
        rec(1, "a", 50),
        rec(2, "b", 700),
        rec(3, "c", 700),
        rec(4, "d", 10),
        rec(5, "e", 9000),
    ];
    let ranked = rank(&records, 10);
    for w in ranked.windows(2) {
        assert!(w[0].cpu_centi_percent >= w[1].cpu_centi_percent);
    }
}

#[test]
fn rank_equal_usage_keeps_input_order() {
    let records = vec![
        rec(10, "first", 500),
        rec(20, "second", 500),
        rec(30, "third", 500),
        rec(40, "hot", 900),
    ];
    let ranked = rank(&records, 10);
    assert_eq!(ranked[0].pid, 40);
    assert_eq!(ranked[1].pid, 10);
    assert_eq!(ranked[2].pid, 20);
    assert_eq!(ranked[3].pid, 30);
}

#[test]
fn rank_truncates_to_top_usage() {
    let records = vec![rec(1, "a", 100), rec(2, "b", 900), rec(3, "c", 500)];
    let ranked = rank(&records, 2);
    assert_eq!(ranked.len(), 2);
    assert_eq!(ranked[0].pid, 2);
    assert_eq!(ranked[1].pid, 3);
}

#[test]
fn rank_keeps_the_highest_usages() {
    let mut records = Vec::new();
    for i in 0..50u32 {
        records.push(rec(i, "p", (i as u64) * 13 % 601));
    }
    let ranked = rank(&records, 10);
    let floor = ranked.last().unwrap().cpu_centi_percent;
    let kept: Vec<u32> = ranked.iter().map(|r| r.pid).collect();
    for r in records.iter() {
        if !kept.contains(&r.pid) {
            assert!(r.cpu_centi_percent <= floor);
        }
    }
}

#[test]
fn scenario_many_processes_top_ten() {
    // 250 processes, N = 10
    let mut records = Vec::new();
    for i in 0..250u32 {
        records.push(rec(i, "p", (i as u64) * 7 % 1000));
    }
    let report = make_report(&records, 250);
    assert_eq!(report.process_count, 250);
    assert_eq!(report.top_processes.len(), 10);
}

#[test]
fn report_of_empty_sample() {
    let records: Vec<ProcessRecord> = Vec::new();
    let report = make_report(&records, 0);
    assert_eq!(report.process_count, 0);
    assert_eq!(report.top_processes.len(), 0);
}
