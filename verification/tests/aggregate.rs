use logstats::process::{process_lines, AggError};
use logstats::report::run_report;

fn lines(v: &[&str]) -> Vec<String> {
    v.iter().map(|s| s.to_string()).collect()
}

#[test]
fn three_records_two_types() {
    let input = lines(&["{\"type\":\"a\"}", "{\"type\":\"b\"}", "{\"type\":\"a\"}"]);
    let out = run_report(&input).unwrap();
    assert_eq!(
        out,
        vec![
            "Type \"a\": Number of Objects: 2; Total Bytes: 24".to_string(),
            "Type \"b\": Number of Objects: 1; Total Bytes: 12".to_string(),
        ]
    );
}

#[test]
fn empty_input_empty_report() {
    let input: Vec<String> = Vec::new();
    let out = run_report(&input).unwrap();
    assert!(out.is_empty());
}

#[test]
fn missing_type_field_fails_with_line_number() {
    let input = lines(&["{\"x\":1}"]);
    match run_report(&input) {
        Err(AggError::Parse { line, text }) => {
            assert_eq!(line, 1);
            assert_eq!(text, "{\"x\":1}");
        }
        other => panic!("expected a parse error, got {:?}", other.is_ok()),
    }
    let msg = logstats::report::error_message(&AggError::Parse {
        line: 1,
        text: "{\"x\":1}".to_string(),
    });
    assert!(msg.contains("line number 1"));
}

#[test]
fn invalid_json_fails_with_raw_text() {
    let input = lines(&["not json"]);
    match run_report(&input) {
        Err(AggError::Parse { line, text }) => {
            assert_eq!(line, 1);
            assert_eq!(text, "not json");
        }
        other => panic!("expected a parse error, got {:?}", other.is_ok()),
    }
    let msg = logstats::report::error_message(&AggError::Parse {
        line: 1,
        text: "not json".to_string(),
    });
    assert!(msg.contains("not json"));
}

#[test]
fn first_error_wins() {
    let input = lines(&["{\"type\":\"ok\"}", "{\"type\":7}", "also bad"]);
    match run_report(&input) {
        Err(AggError::Parse { line, text }) => {
            assert_eq!(line, 2);
            assert_eq!(text, "{\"type\":7}");
        }
        other => panic!("expected a parse error, got {:?}", other.is_ok()),
    }
}

#[test]
fn non_string_type_rejected() {
    for bad in ["{\"type\":3}", "{\"type\":null}", "{\"type\":[\"a\"]}", "[1,2]", ""] {
        let input = lines(&[bad]);
        assert!(run_report(&input).is_err(), "accepted {:?}", bad);
    }
}

#[test]
fn extra_fields_ignored() {
    let line = "{\"other\":[1,{\"a\":null}],\"type\":\"x\",\"n\":3}";
    let input = lines(&[line]);
    let out = run_report(&input).unwrap();
    assert_eq!(
        out,
        vec![format!(
            "Type \"x\": Number of Objects: 1; Total Bytes: {}",
            line.len()
        )]
    );
}

#[test]
fn multibyte_label_and_line() {
    let line = "{\"type\":\"h\u{e9}llo\"}";
    let input = lines(&[line]);
    let out = run_report(&input).unwrap();
    assert_eq!(
        out,
        vec![format!(
            "Type \"h\u{e9}llo\": Number of Objects: 1; Total Bytes: {}",
            line.len()
        )]
    );
}

#[test]
fn labels_sorted_ascending() {
    let input = lines(&[
        "{\"type\":\"c\"}",
        "{\"type\":\"a\"}",
        "{\"type\":\"ab\"}",
        "{\"type\":\"b\"}",
        "{\"type\":\"a\"}",
    ]);
    let out = run_report(&input).unwrap();
    let labels: Vec<&str> = out
        .iter()
        .map(|row| {
            let start = row.find('"').unwrap() + 1;
            let end = row.rfind('"').unwrap();
            &row[start..end]
        })
        .collect();
    assert_eq!(labels, vec!["a", "ab", "b", "c"]);
    for pair in labels.windows(2) {
        assert!(pair[0] < pair[1]);
    }
}

#[test]
fn counts_sum_to_line_count_and_bytes_to_total() {
    let raw = [
        "{\"type\":\"x\"}",
        "{\"type\":\"y\",\"k\":1}",
        "{\"type\":\"x\",\"longer\":true}",
        "{\"type\":\"z\"}",
    ];
    let input = lines(&raw);
    let table = process_lines(&input).unwrap();
    let mut count_sum: u64 = 0;
    let mut byte_sum: u64 = 0;
    let mut i = 0;
    while i < table.len() {
        let (_, num, bytes) = table.entry_at(i);
        count_sum += num;
        byte_sum += bytes;
        i += 1;
    }
    assert_eq!(count_sum, raw.len() as u64);
    let expected_bytes: usize = raw.iter().map(|l| l.len()).sum();
    assert_eq!(byte_sum, expected_bytes as u64);
}

#[test]
fn reordered_lines_same_report() {
    let a = lines(&[
        "{\"type\":\"p\"}",
        "{\"type\":\"q\",\"pad\":0}",
        "{\"type\":\"p\",\"x\":\"y\"}",
    ]);
    let b = lines(&[
        "{\"type\":\"p\",\"x\":\"y\"}",
        "{\"type\":\"p\"}",
        "{\"type\":\"q\",\"pad\":0}",
    ]);
    assert_eq!(run_report(&a).unwrap(), run_report(&b).unwrap());
}

#[test]
fn rerun_is_byte_identical() {
    let input = lines(&["{\"type\":\"m\"}", "{\"type\":\"n\"}", "{\"type\":\"m\"}"]);
    let first = run_report(&input).unwrap();
    let second = run_report(&input).unwrap();
    assert_eq!(first, second);
}
