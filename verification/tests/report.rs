use dublette::dedupe::{DeduplicationReport, DuplicateGroup, MediaKind};
use dublette::report::{decimal, format_empty_table, format_table};

fn make_report(groups: Vec<DuplicateGroup>) -> DeduplicationReport {
    DeduplicationReport {
        groups,
        empty_files: vec![],
        skipped: vec![],
        to_delete: vec![],
    }
}

fn group(keep: &str, duplicates: &[&str]) -> DuplicateGroup {
    DuplicateGroup {
        kind: MediaKind::Image,
        keep: keep.to_string(),
        duplicates: duplicates.iter().map(|d| d.to_string()).collect(),
    }
}

#[test]
fn table_contains_keep_and_delete() {
    let report = make_report(vec![group("a.jpg", &["b.jpg"])]);
    let output = format_table(&report, false);
    assert!(output.contains("keep"));
    assert!(output.contains("delete"));
    assert!(output.contains("a.jpg"));
    assert!(output.contains("b.jpg"));
}

#[test]
fn dry_run_shows_would_delete() {
    let report = make_report(vec![group("a.jpg", &["b.jpg"])]);
    let output = format_table(&report, true);
    assert!(output.contains("would delete"));
}

#[test]
fn table_header_shows_counts() {
    let report = make_report(vec![
        group("a.jpg", &["b.jpg", "c.jpg"]),
        group("d.jpg", &["e.jpg"]),
    ]);
    let output = format_table(&report, false);
    assert!(output.contains("2 group(s)"));
    assert!(output.contains("3 to remove"));
}

#[test]
fn empty_table_shows_count() {
    let files = vec!["a.jpg".to_string(), "b.jpg".to_string()];
    let output = format_empty_table(&files, true);
    assert!(output.contains("2"));
    assert!(output.contains("would delete"));
}

#[test]
fn report_to_delete_contains_duplicate_paths() {
    let report = DeduplicationReport {
        groups: vec![group("2020/a.jpg", &["2021/b.jpg", "2021/c.jpg"])],
        empty_files: vec![],
        skipped: vec![],
        to_delete: vec!["2021/b.jpg".to_string(), "2021/c.jpg".to_string()],
    };
    assert_eq!(report.to_delete.len(), 2);
    assert_eq!(report.to_delete[0], "2021/b.jpg");
    assert_eq!(report.to_delete[1], "2021/c.jpg");
}

#[test]
fn table_layout_is_exact() {
    let report = make_report(vec![group("a.jpg", &["b.jpg"])]);
    let output = format_table(&report, false);
    let expected = "Duplicates: 1 group(s), 1 to remove\n\
+-------+-------+--------+\n\
| Group | File  | Action |\n\
+-------+-------+--------+\n\
| 1     | a.jpg | keep   |\n\
+-------+-------+--------+\n\
|       | b.jpg | delete |\n\
+-------+-------+--------+";
    assert_eq!(output, expected);
}

#[test]
fn empty_table_header_line() {
    let files = vec!["x.png".to_string()];
    let output = format_empty_table(&files, false);
    assert!(output.starts_with("Empty (0-byte) files (1)\n"));
    assert!(output.contains("x.png"));
    assert!(output.contains("delete"));
    assert!(!output.contains("would delete"));
}

#[test]
fn decimal_writes_numbers() {
    assert_eq!(decimal(0), "0");
    assert_eq!(decimal(7), "7");
    assert_eq!(decimal(10), "10");
    assert_eq!(decimal(1234567890), "1234567890");
}

#[test]
fn groups_are_numbered_from_one() {
    let report = make_report(vec![
        group("a.jpg", &["b.jpg"]),
        group("c.jpg", &["d.jpg"]),
    ]);
    let output = format_table(&report, true);
    assert!(output.contains("| 1 "));
    assert!(output.contains("| 2 "));
}
