//! The lines of the non-interactive output: the project table of a dry run,
//! the warning list and the closing summary of a clean.

use vstd::prelude::*;
use crate::cleaner::CleanSummary;
use crate::format::{
    bytes_text, earliest_formattable, format_bytes, format_system_time, latest_formattable,
    minute_format, padded, push_padded, subsecond_nanos, time_text, whole_seconds,
};
use crate::scan::{display_relative, ProjectInfo, ProjectView, ScanWarning};
use crate::text::{chars_to_string, decimal, lossy_text, push_chars, push_decimal, push_str, str_chars, utf8_lossy};

verus! {

/// The heading of the project table.
pub open spec fn table_header_text() -> Seq<char> {
    padded("TARGET"@, 10) + " "@ + padded("TOTAL"@, 10) + " "@ + padded("MODIFIED"@, 17) + " PROJECT"@
}

pub fn project_table_header() -> (line: String)
    ensures
        line@ == table_header_text(),
{
    let mut out: Vec<char> = Vec::new();
    push_padded(&mut out, "TARGET", 10);
    push_str(&mut out, " ");
    push_padded(&mut out, "TOTAL", 10);
    push_str(&mut out, " ");
    push_padded(&mut out, "MODIFIED", 17);
    push_str(&mut out, " PROJECT");
    chars_to_string(&out)
}

/// A row of the project table, with the modification time written as `modified`.
pub open spec fn table_row_text(p: ProjectView, scan_root: Seq<u8>, modified: Seq<char>) -> Seq<char> {
    padded(bytes_text(p.target_size), 10) + " "@ + padded(bytes_text(p.total_size), 10) + " "@
        + padded(modified, 17) + " "@ + utf8_lossy(display_relative(p.root, scan_root))
}

/// The table row of `project`, its time written as `modified`.
pub fn project_table_row(project: &ProjectInfo, scan_root: &Vec<u8>, modified: &str) -> (line: String)
    ensures
        line@ == table_row_text(project@, scan_root@, modified@),
{
    let mut out: Vec<char> = Vec::new();
    push_padded(&mut out, format_bytes(project.target_size).as_str(), 10);
    push_str(&mut out, " ");
    push_padded(&mut out, format_bytes(project.total_size).as_str(), 10);
    push_str(&mut out, " ");
    push_padded(&mut out, modified, 17);
    push_str(&mut out, " ");
    let shown = project.display_path(scan_root);
    push_str(&mut out, lossy_text(shown.as_slice()).as_str());
    chars_to_string(&out)
}

/// The table row of `project` with its time in the local time zone.
pub fn project_table_line(project: &ProjectInfo, scan_root: &Vec<u8>) -> (line: String)
    requires
        earliest_formattable() <= project.last_modified <= latest_formattable(),
    ensures
        exists|offset: i32|
            -86400 < offset < 86400 && line@ == table_row_text(
                project@,
                scan_root@,
                time_text(
                    whole_seconds(project.last_modified as int),
                    subsecond_nanos(project.last_modified as int),
                    offset,
                    minute_format(),
                ),
            ),
{
    let modified = format_system_time(project.last_modified);
    project_table_row(project, scan_root, modified.as_str())
}

/// How many warnings are listed before the rest are only counted.
pub open spec fn warnings_shown() -> nat {
    8
}

/// The line of one warning: its path, if any, then its message.
pub open spec fn warning_text(w: ScanWarning) -> Seq<char> {
    match w.path {
        Some(p) => "  "@ + utf8_lossy(p@) + ": "@ + w.message@,
        None => "  "@ + w.message@,
    }
}

/// The warning list: a heading, the first eight warnings, and a count of
/// the others.
pub open spec fn warning_texts(ws: Seq<ScanWarning>) -> Seq<Seq<char>> {
    let shown = if ws.len() < warnings_shown() {
        ws.len()
    } else {
        warnings_shown()
    };
    seq!["Warnings:"@] + Seq::new(shown, |i: int| warning_text(ws[i])) + if ws.len() > warnings_shown() {
        seq!["  ... and "@ + decimal((ws.len() - warnings_shown()) as nat) + " more"@]
    } else {
        seq![]
    }
}

/// The lines that list the scan's warnings.
pub fn warning_lines(warnings: &Vec<ScanWarning>) -> (lines: Vec<String>)
    ensures
        lines@.map_values(|s: String| s@) == warning_texts(warnings@),
{
    let mut lines: Vec<String> = Vec::new();
    lines.push("Warnings:".to_owned());
    let shown: usize = if warnings.len() < 8 {
        warnings.len()
    } else {
        8
    };
    let mut i: usize = 0;
    while i < shown
        invariant
            i <= shown <= warnings.len(),
            shown == (if warnings.len() < 8 { warnings.len() } else { 8 }),
            lines@.map_values(|s: String| s@) == seq!["Warnings:"@] + Seq::new(i as nat, |k: int| warning_text(warnings@[k])),
        decreases shown - i,
    {
        let w = &warnings[i];
        let mut out: Vec<char> = Vec::new();
        push_str(&mut out, "  ");
        match &w.path {
            Some(p) => {
                push_str(&mut out, lossy_text(p.as_slice()).as_str());
                push_str(&mut out, ": ");
            },
            None => {},
        }
        push_str(&mut out, w.message.as_str());
        let ghost before = lines@.map_values(|s: String| s@);
        lines.push(chars_to_string(&out));
        assert(lines@.map_values(|s: String| s@) =~= before.push(warning_text(warnings@[i as int])));
        i = i + 1;
        assert(seq!["Warnings:"@] + Seq::new(i as nat, |k: int| warning_text(warnings@[k])) =~= (seq!["Warnings:"@] + Seq::new((i - 1) as nat, |k: int| warning_text(warnings@[k]))).push(warning_text(warnings@[i - 1])));
    }
    if warnings.len() > 8 {
        let mut out: Vec<char> = Vec::new();
        push_str(&mut out, "  ... and ");
        push_decimal(&mut out, (warnings.len() - 8) as u128);
        push_str(&mut out, " more");
        let ghost before = lines@.map_values(|s: String| s@);
        lines.push(chars_to_string(&out));
        assert(lines@.map_values(|s: String| s@) =~= before.push(out@));
    }
    assert(lines@.map_values(|s: String| s@) =~= warning_texts(warnings@));
    lines
}

/// The closing line of a clean.
pub open spec fn summary_text(s: CleanSummary) -> Seq<char> {
    "Done. cleaned: "@ + decimal(s.cleaned as nat) + ", failed: "@ + decimal(s.failed as nat)
        + ", skipped: "@ + decimal(s.skipped as nat)
}

pub fn summary_line(summary: &CleanSummary) -> (line: String)
    ensures
        line@ == summary_text(*summary),
{
    let mut out: Vec<char> = Vec::new();
    push_str(&mut out, "Done. cleaned: ");
    push_decimal(&mut out, summary.cleaned as u128);
    push_str(&mut out, ", failed: ");
    push_decimal(&mut out, summary.failed as u128);
    push_str(&mut out, ", skipped: ");
    push_decimal(&mut out, summary.skipped as u128);
    chars_to_string(&out)
}

} // verus!
