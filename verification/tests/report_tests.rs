use rucycle::cleaner::CleanSummary;
use rucycle::report::{project_table_header, project_table_row, summary_line, warning_lines};
use rucycle::scan::{ProjectInfo, ScanWarning};

fn p(s: &str) -> Vec<u8> {
    s.as_bytes().to_vec()
}

#[test]
fn table_lines_are_padded() {
    assert_eq!(project_table_header(), "TARGET     TOTAL      MODIFIED          PROJECT");
    let project = ProjectInfo {
        root: p("/s/demo"),
        manifest_path: p("/s/demo/Cargo.toml"),
        name: "demo".to_string(),
        total_size: 4096,
        target_size: 2048,
        last_modified: 0,
    };
    assert_eq!(
        project_table_row(&project, &p("/s"), "2024-01-02 03:04"),
        "2.00 KiB   4.00 KiB   2024-01-02 03:04  demo"
    );
}

#[test]
fn lists_at_most_eight_warnings() {
    let mut warnings: Vec<ScanWarning> = (0..10).map(|i| ScanWarning::new(None, format!("m{i}"))).collect();
    warnings[0].path = Some(p("/x/Cargo.toml"));
    let lines = warning_lines(&warnings);
    assert_eq!(lines.len(), 10);
    assert_eq!(lines[0], "Warnings:");
    assert_eq!(lines[1], "  /x/Cargo.toml: m0");
    assert_eq!(lines[8], "  m7");
    assert_eq!(lines[9], "  ... and 2 more");
    let few = warning_lines(&warnings[..2].iter().map(|w| ScanWarning::new(None, w.message.clone())).collect());
    assert_eq!(few, vec!["Warnings:", "  m0", "  m1"]);
}

#[test]
fn summarizes_a_clean() {
    let summary = CleanSummary { cleaned: 3, failed: 1, skipped: 0 };
    assert_eq!(summary_line(&summary), "Done. cleaned: 3, failed: 1, skipped: 0");
}
