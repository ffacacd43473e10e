use rucycle::cleaner::CleanEvent;
use rucycle::scan::{ProjectInfo, ScanReport, ScanWarning, SortKey};
use rucycle::ui::{centered_rect, screen_page_size, App, Area, KeyCode, KeyInput, KeyOutcome, Mode, ProjectStatus};

fn p(s: &str) -> Vec<u8> {
    s.as_bytes().to_vec()
}

fn project(root: &str, target: u64, total: u64, modified: i128) -> ProjectInfo {
    ProjectInfo {
        root: p(root),
        manifest_path: p(&format!("{root}/Cargo.toml")),
        name: root.rsplit('/').next().unwrap().to_string(),
        total_size: total,
        target_size: target,
        last_modified: modified,
    }
}

fn app(n: usize) -> App {
    let projects = (0..n).map(|i| project(&format!("/s/p{i}"), (100 - i) as u64, 1000, i as i128)).collect();
    App::new(ScanReport { scan_root: p("/s"), projects, warnings: Vec::new() }, SortKey::Size)
}

fn key(code: KeyCode) -> KeyInput {
    KeyInput { code, control: false, release: false }
}

fn ch(c: char) -> KeyInput {
    key(KeyCode::Char(c))
}

#[test]
fn starts_with_everything_selected() {
    let a = app(3);
    assert_eq!(a.selected, vec![true, true, true]);
    assert_eq!(a.statuses, vec![ProjectStatus::Idle; 3]);
    assert_eq!(a.cursor, 0);
    assert_eq!(a.mode, Mode::Browsing);
    assert_eq!(a.message, "Space toggles, c cleans, s sorts, a selects all, q quits");
    assert_eq!(a.selected_count(), 3);
    assert_eq!(a.total_reclaimable(), 100 + 99 + 98);
}

#[test]
fn moves_and_scrolls() {
    let mut a = app(10);
    a.move_cursor(1, 3);
    assert_eq!((a.cursor, a.offset), (1, 0));
    a.move_cursor(5, 3);
    assert_eq!((a.cursor, a.offset), (6, 4));
    a.move_cursor(100, 3);
    assert_eq!((a.cursor, a.offset), (9, 7));
    a.move_cursor(-2, 3);
    assert_eq!((a.cursor, a.offset), (7, 7));
    a.move_cursor(-100, 3);
    assert_eq!((a.cursor, a.offset), (0, 0));
    a.jump_cursor(50, 4);
    assert_eq!((a.cursor, a.offset), (9, 6));
    a.jump_cursor(0, 4);
    assert_eq!((a.cursor, a.offset), (0, 0));
    let mut empty = app(0);
    empty.move_cursor(3, 5);
    assert_eq!((empty.cursor, empty.offset), (0, 0));
}

#[test]
fn toggles_selection() {
    let mut a = app(3);
    a.toggle_current();
    assert_eq!(a.selected, vec![false, true, true]);
    a.toggle_current();
    assert_eq!(a.selected, vec![true, true, true]);
    a.toggle_all();
    assert_eq!(a.selected, vec![false, false, false]);
    a.toggle_all();
    assert_eq!(a.selected, vec![true, true, true]);
    a.toggle_current();
    a.toggle_all();
    assert_eq!(a.selected, vec![true, true, true]);
}

#[test]
fn sorting_keeps_selection_status_and_cursor_with_projects() {
    let mut a = app(3);
    // Rows: p0 (target 100, oldest), p1, p2 (target 98, newest).
    a.selected = vec![true, false, true];
    a.statuses[1] = ProjectStatus::Failed;
    a.cursor = 1;
    a.toggle_sort();
    assert_eq!(a.sort, SortKey::Modified);
    assert_eq!(a.message, "Sorted by latest project modification");
    let roots: Vec<Vec<u8>> = a.report.projects.iter().map(|p| p.root.clone()).collect();
    assert_eq!(roots, vec![p("/s/p2"), p("/s/p1"), p("/s/p0")]);
    assert_eq!(a.selected, vec![true, false, true]);
    assert_eq!(a.statuses, vec![ProjectStatus::Idle, ProjectStatus::Failed, ProjectStatus::Idle]);
    assert_eq!(a.cursor, 1);
    a.cursor = 0;
    a.toggle_sort();
    assert_eq!(a.message, "Sorted by reclaimable target size");
    assert_eq!(a.report.projects[a.cursor].root, p("/s/p2"));
    assert_eq!(a.cursor, 2);
}

#[test]
fn keys_drive_the_list() {
    let mut a = app(5);
    assert_eq!(a.handle_key(key(KeyCode::Down), 2), KeyOutcome::Continue);
    assert_eq!(a.handle_key(ch('j'), 2), KeyOutcome::Continue);
    assert_eq!((a.cursor, a.offset), (2, 1));
    assert_eq!(a.handle_key(ch('k'), 2), KeyOutcome::Continue);
    assert_eq!(a.cursor, 1);
    a.handle_key(key(KeyCode::End), 2);
    assert_eq!(a.cursor, 4);
    a.handle_key(key(KeyCode::PageUp), 2);
    assert_eq!(a.cursor, 2);
    a.handle_key(key(KeyCode::Home), 2);
    assert_eq!((a.cursor, a.offset), (0, 0));
    a.handle_key(key(KeyCode::PageDown), 2);
    assert_eq!(a.cursor, 2);
    a.handle_key(ch(' '), 2);
    assert!(!a.selected[2]);
    a.handle_key(KeyInput { code: KeyCode::Char(' '), control: false, release: true }, 2);
    assert!(!a.selected[2]);
    a.handle_key(ch('a'), 2);
    assert_eq!(a.selected, vec![true; 5]);
    a.handle_key(ch('s'), 2);
    assert_eq!(a.sort, SortKey::Modified);
    assert_eq!(a.report.projects[a.cursor].root, p("/s/p2"));
    assert_eq!(a.handle_key(ch('x'), 2), KeyOutcome::Continue);
    assert_eq!(a.handle_key(ch('d'), 2), KeyOutcome::Continue);
    assert_eq!(a.handle_key(KeyInput { code: KeyCode::Char('d'), control: true, release: false }, 2), KeyOutcome::Quit);
    assert_eq!(a.handle_key(ch('q'), 2), KeyOutcome::Quit);
    assert_eq!(a.handle_key(key(KeyCode::Esc), 2), KeyOutcome::Quit);
}

#[test]
fn cleaning_needs_a_selection_and_confirmation() {
    let mut a = app(2);
    a.handle_key(ch('a'), 2);
    assert_eq!(a.handle_key(ch('c'), 2), KeyOutcome::Continue);
    assert_eq!(a.mode, Mode::Browsing);
    assert_eq!(a.message, "Select at least one project before cleaning");
    a.handle_key(ch('a'), 2);
    a.handle_key(ch('c'), 2);
    assert_eq!(a.mode, Mode::ConfirmClean);
    assert_eq!(a.handle_key(ch('j'), 2), KeyOutcome::Continue);
    assert_eq!(a.cursor, 0);
    assert_eq!(a.handle_key(ch('n'), 2), KeyOutcome::Continue);
    assert_eq!(a.mode, Mode::Browsing);
    assert_eq!(a.message, "Clean cancelled");
    a.handle_key(ch('c'), 2);
    assert_eq!(a.handle_key(key(KeyCode::Enter), 2), KeyOutcome::Clean);
    assert_eq!(a.handle_key(ch('y'), 2), KeyOutcome::Clean);
}

#[test]
fn clean_events_update_rows() {
    let mut a = app(3);
    a.selected[1] = false;
    let plan = a.begin_clean();
    assert_eq!(a.mode, Mode::Cleaning);
    assert_eq!(a.message, "Cleaning selected projects...");
    assert_eq!(plan.projects.len(), 2);
    assert_eq!(a.handle_key(ch('q'), 2), KeyOutcome::Continue);

    let first = plan.projects[0].duplicate();
    a.apply_clean_event(&CleanEvent::Started { index: 1, total: 2, project: first.duplicate() });
    assert_eq!(a.statuses[0], ProjectStatus::Cleaning);
    assert_eq!(a.message, "Cleaning /s/p0");
    a.apply_clean_event(&CleanEvent::Cleaned { project: first, reclaimed: 100 });
    assert_eq!(a.statuses[0], ProjectStatus::Cleaned);
    assert_eq!(a.report.projects[0].target_size, 0);
    assert_eq!(a.report.projects[0].total_size, 900);

    let second = plan.projects[1].duplicate();
    a.apply_clean_event(&CleanEvent::Skipped { project: second.duplicate(), message: "busy".to_string() });
    assert_eq!(a.statuses[2], ProjectStatus::Idle);
    assert_eq!(a.message, "Skipped p2: busy");
    assert_eq!(a.report.projects[2].target_size, second.target_size);
    a.apply_clean_event(&CleanEvent::Failed { project: second, message: "boom".to_string() });
    assert_eq!(a.statuses[2], ProjectStatus::Failed);
    assert_eq!(a.message, "Failed p2: boom");

    a.cursor = 0;
    a.finish_clean();
    assert_eq!(a.mode, Mode::Browsing);
    assert_eq!(a.message, "Clean complete: 1 cleaned, 1 failed");
    // The cleaned project has no target left and moves to the end.
    let roots: Vec<Vec<u8>> = a.report.projects.iter().map(|p| p.root.clone()).collect();
    assert_eq!(roots, vec![p("/s/p1"), p("/s/p2"), p("/s/p0")]);
    assert_eq!(a.statuses, vec![ProjectStatus::Idle, ProjectStatus::Failed, ProjectStatus::Cleaned]);
    assert_eq!(a.selected, vec![false, true, true]);
    assert_eq!(a.cursor, 2);
}

#[test]
fn reclaimed_bytes_never_go_below_zero() {
    let mut a = app(1);
    let pr = a.report.projects[0].duplicate();
    a.apply_clean_event(&CleanEvent::Cleaned { project: pr, reclaimed: 5000 });
    assert_eq!(a.report.projects[0].total_size, 0);
    let stranger = project("/elsewhere", 1, 1, 1);
    a.apply_clean_event(&CleanEvent::Failed { project: stranger, message: "x".to_string() });
    assert_eq!(a.statuses[0], ProjectStatus::Cleaned);
}

#[test]
fn screen_text() {
    let mut a = app(3);
    a.report.warnings.push(ScanWarning::new(None, "w".to_string()));
    let total = a.checked_total_reclaimable().unwrap();
    assert_eq!(total, 297);
    assert_eq!(a.header_line(total), "  3 projects  selected: 3  reclaimable: 297 B  sort: target size  warnings: 1");
    assert_eq!(a.confirm_line(total), "3 selected, about 297 B reclaimable from target directories.");
    assert_eq!(a.position_line(), "1/3");
    assert_eq!(app(0).position_line(), "0/0");
    let cells = a.row_cells(0, 14);
    assert_eq!(cells.marker, ">");
    assert_eq!(cells.checked, "[x]");
    assert_eq!(cells.path, "p0");
    assert_eq!(cells.target, "100 B");
    assert_eq!(cells.total, "1000 B");
    assert_eq!(cells.status, "");
    a.toggle_current();
    assert_eq!(a.row_cells(0, 14).checked, "[ ]");
    assert_eq!(a.row_cells(1, 14).marker, " ");
    assert_eq!(App::page_size(Area { x: 0, y: 0, width: 80, height: 20 }), 17);
    assert_eq!(App::page_size(Area { x: 0, y: 0, width: 80, height: 2 }), 1);
    assert_eq!(App::path_width(100), 38);
    assert_eq!(App::path_width(40), 14);
    assert_eq!(a.visible_rows(2), (0, 2));
    a.offset = 7;
    assert_eq!(a.visible_rows(2), (2, 3));
    assert_eq!(
        centered_rect(62, 8, Area { x: 0, y: 0, width: 100, height: 30 }),
        Area { x: 19, y: 11, width: 62, height: 8 }
    );
    assert_eq!(
        centered_rect(62, 8, Area { x: 0, y: 0, width: 40, height: 6 }),
        Area { x: 1, y: 1, width: 38, height: 4 }
    );
}

#[test]
fn an_overflowing_total_is_reported() {
    let projects = vec![project("/a", u64::MAX, 0, 0), project("/b", 1, 0, 0)];
    let a = App::new(ScanReport { scan_root: p("/"), projects, warnings: Vec::new() }, SortKey::Size);
    assert_eq!(a.checked_total_reclaimable(), None);
}

#[test]
fn page_size_follows_the_screen_layout() {
    // A 24-row screen leaves 18 rows between header and footer: a frame,
    // a heading line and 15 projects.
    assert_eq!(screen_page_size(Area { x: 0, y: 0, width: 80, height: 24 }), 15);
    assert_eq!(screen_page_size(Area { x: 0, y: 0, width: 80, height: 40 }), 31);
}
