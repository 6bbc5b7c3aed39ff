use logstats::process::AggError;
use logstats::report::{error_message, render_report, u64_to_string};
use logstats::stats::StatsTable;

#[test]
fn decimal_rendering() {
    assert_eq!(u64_to_string(0), "0");
    assert_eq!(u64_to_string(7), "7");
    assert_eq!(u64_to_string(10), "10");
    assert_eq!(u64_to_string(409), "409");
    assert_eq!(u64_to_string(u64::MAX), "18446744073709551615");
}

#[test]
fn record_accumulates_per_label() {
    let mut table = StatsTable::new();
    assert!(table.record("beta".to_string(), 10));
    assert!(table.record("alpha".to_string(), 5));
    assert!(table.record("beta".to_string(), 2));
    let out = render_report(&table);
    assert_eq!(
        out,
        vec![
            "Type \"alpha\": Number of Objects: 1; Total Bytes: 5".to_string(),
            "Type \"beta\": Number of Objects: 2; Total Bytes: 12".to_string(),
        ]
    );
}

#[test]
fn record_detects_byte_overflow() {
    let mut table = StatsTable::new();
    assert!(table.record("a".to_string(), u64::MAX));
    assert!(!table.record("a".to_string(), 1));
    assert!(table.record("b".to_string(), 1));
    let out = render_report(&table);
    assert_eq!(
        out,
        vec![
            format!("Type \"a\": Number of Objects: 1; Total Bytes: {}", u64::MAX),
            "Type \"b\": Number of Objects: 1; Total Bytes: 1".to_string(),
        ]
    );
}

#[test]
fn error_messages() {
    assert_eq!(
        error_message(&AggError::Io { path: "logs/app.jsonl".to_string() }),
        "Could not open the file logs/app.jsonl"
    );
    assert_eq!(
        error_message(&AggError::Decode { line: 12 }),
        "Could not process line number 12: could not read valid text from the file"
    );
    assert_eq!(
        error_message(&AggError::Parse { line: 3, text: "oops".to_string() }),
        "Could not process line number 3: could not parse `oops`"
    );
    assert_eq!(
        error_message(&AggError::Overflow { line: 44 }),
        "Could not process line number 44: total number of bytes processed exceeded the 64-bit range"
    );
}

#[test]
fn empty_table_renders_nothing() {
    let table = StatsTable::new();
    assert!(render_report(&table).is_empty());
    assert_eq!(table.len(), 0);
}
