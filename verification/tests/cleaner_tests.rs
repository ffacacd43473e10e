use rucycle::cleaner::{
    clean_command, command_failure_message, compact_message, is_cargo_process,
    manifest_path_argument, manifest_scope_directory, process_name_is_cargo,
    project_has_active_cargo, resolve_manifest_path, CleanEvent, CleanPlan, CleanSession,
    CleanSummary, CommandOutcome, ProcessInfo,
};
use rucycle::scan::ProjectInfo;

fn p(s: &str) -> Vec<u8> {
    s.as_bytes().to_vec()
}

fn project(root: &str, target: u64) -> ProjectInfo {
    ProjectInfo {
        root: p(root),
        manifest_path: p(&format!("{root}/Cargo.toml")),
        name: root.rsplit('/').next().unwrap().to_string(),
        total_size: target * 2,
        target_size: target,
        last_modified: 0,
    }
}

fn os_args(args: &[&str]) -> Vec<Vec<u8>> {
    args.iter().map(|a| p(a)).collect()
}

#[test]
fn manifest_path_argument_separate_form() {
    let command = os_args(&["cargo", "build", "--manifest-path", "demo/Cargo.toml"]);
    assert_eq!(manifest_path_argument(&command), Some(p("demo/Cargo.toml")));
}

#[test]
fn manifest_path_argument_equals_form() {
    let command = os_args(&["cargo", "test", "--manifest-path=demo/Cargo.toml"]);
    assert_eq!(manifest_path_argument(&command), Some(p("demo/Cargo.toml")));
}

#[test]
fn manifest_argument_edge_cases() {
    assert_eq!(manifest_path_argument(&os_args(&["cargo", "build"])), None);
    assert_eq!(manifest_path_argument(&os_args(&["cargo", "build", "--manifest-path"])), None);
    // The program name itself is not looked at.
    assert_eq!(manifest_path_argument(&os_args(&["--manifest-path=x", "build"])), None);
    // The first occurrence decides.
    assert_eq!(
        manifest_path_argument(&os_args(&["cargo", "--manifest-path=a", "--manifest-path", "b"])),
        Some(p("a"))
    );
    assert_eq!(manifest_path_argument(&Vec::new()), None);
    // Invalid UTF-8 after the equals sign is replaced.
    let mut arg = p("--manifest-path=x");
    arg.push(0xff);
    assert_eq!(manifest_path_argument(&vec![p("cargo"), arg]), Some("x\u{FFFD}".as_bytes().to_vec()));
}

#[test]
fn recognizes_cargo_processes() {
    assert!(process_name_is_cargo(b"cargo"));
    assert!(process_name_is_cargo(b"CARGO.exe"));
    assert!(!process_name_is_cargo(b"cargo-clippy"));
    assert!(!process_name_is_cargo(b"rustc"));
    let process = ProcessInfo { name: p("bash"), exe_file_name: Some(p("Cargo")), cwd: None, command: Vec::new() };
    assert!(is_cargo_process(&process));
    let process = ProcessInfo { name: p("bash"), exe_file_name: None, cwd: None, command: Vec::new() };
    assert!(!is_cargo_process(&process));
}

#[test]
fn busy_projects_are_those_sharing_a_tree_with_cargo() {
    let roots = vec![p("/w/other"), p("/w/app/crates/core")];
    assert!(project_has_active_cargo(&roots, &project("/w/app", 1)));
    assert!(!project_has_active_cargo(&roots, &project("/w/apps", 1)));
    assert!(project_has_active_cargo(&vec![p("/w")], &project("/w/app", 1)));
    assert!(!project_has_active_cargo(&Vec::new(), &project("/w/app", 1)));
}

#[test]
fn compacts_messages() {
    assert_eq!(compact_message("  error: boom \nsecond line"), "error: boom");
    assert_eq!(compact_message("first\r\nsecond"), "first");
    let long = "x".repeat(200);
    let compacted = compact_message(&long);
    assert_eq!(compacted.chars().count(), 180);
    assert!(compacted.ends_with('.'));
    assert_eq!(&compacted[..179], &long[..179]);
    assert_eq!(compact_message(&"y".repeat(180)), "y".repeat(180));
}

#[test]
fn failure_messages_prefer_stderr() {
    assert_eq!(command_failure_message(b"  \nerror: locked\nmore", b"out"), "error: locked");
    assert_eq!(command_failure_message(b"   ", b" stdout line \n"), "stdout line");
    assert_eq!(command_failure_message(b"", b"\t"), "cargo clean exited with a non-zero status");
    assert_eq!(command_failure_message(&[0xff, b'!'], b""), "\u{FFFD}!");
}

#[test]
fn plans_take_the_selected_projects() {
    let projects = vec![project("/a", 1), project("/b", 2), project("/c", 3)];
    let plan = CleanPlan::selected(&projects, &vec![true, false, true]);
    let roots: Vec<Vec<u8>> = plan.projects.iter().map(|p| p.root.clone()).collect();
    assert_eq!(roots, vec![p("/a"), p("/c")]);
    let plan = CleanPlan::selected(&projects, &vec![true]);
    assert_eq!(plan.projects.len(), 1);
    let plan = CleanPlan::all(projects);
    assert_eq!(plan.projects.len(), 3);
}

#[test]
fn describes_events() {
    let e = CleanEvent::Started { index: 2, total: 5, project: project("/w/app", 2048) };
    assert_eq!(e.describe(), "[2/5] cleaning /w/app (2.00 KiB)");
    let e = CleanEvent::Cleaned { project: project("/w/app", 0), reclaimed: 1024 * 1024 };
    assert_eq!(e.describe(), "cleaned /w/app (about 1.00 MiB reclaimable)");
    let e = CleanEvent::Skipped { project: project("/w/app", 0), message: "busy".to_string() };
    assert_eq!(e.describe(), "skipped /w/app: busy");
    let e = CleanEvent::Failed { project: project("/w/app", 0), message: "boom".to_string() };
    assert_eq!(e.describe(), "failed /w/app: boom");
}

#[test]
fn a_session_counts_every_project_once() {
    let plan = CleanPlan::all(vec![project("/a", 10), project("/b", 20), project("/c", 30), project("/d", 40)]);
    let mut session = CleanSession::new(plan);
    let mut lines = Vec::new();

    // /a is busy.
    assert_eq!(session.current().unwrap().root, p("/a"));
    lines.push(session.decide(true).unwrap().describe());
    // /b is cleaned.
    lines.push(session.decide(false).unwrap().describe());
    // Deciding again while cleaning runs changes nothing.
    assert!(session.decide(false).is_none());
    lines.push(session.record(CommandOutcome::Succeeded).unwrap().describe());
    // Recording without a running clean changes nothing.
    assert!(session.record(CommandOutcome::Succeeded).is_none());
    // /c fails with output.
    session.decide(false).unwrap();
    lines.push(
        session
            .record(CommandOutcome::Exited { stderr: b"error: could not remove\n".to_vec(), stdout: Vec::new() })
            .unwrap()
            .describe(),
    );
    // /d cannot be run.
    session.decide(false).unwrap();
    lines.push(session.record(CommandOutcome::NotRun { message: "not found".to_string() }).unwrap().describe());
    assert!(session.current().is_none());
    assert!(session.decide(false).is_none());

    assert_eq!(
        lines,
        vec![
            "skipped /a: cargo is already running in this project tree",
            "[2/4] cleaning /b (20 B)",
            "cleaned /b (about 20 B reclaimable)",
            "failed /c: error: could not remove",
            "failed /d: not found",
        ]
    );
    assert_eq!(session.summary(), CleanSummary { cleaned: 1, failed: 2, skipped: 1 });
}

#[test]
fn an_empty_plan_does_nothing() {
    let mut session = CleanSession::new(CleanPlan::all(Vec::new()));
    assert!(session.current().is_none());
    assert!(session.decide(false).is_none());
    assert_eq!(session.summary(), CleanSummary::default());
}

#[test]
fn builds_the_clean_command() {
    let pr = project("/w/demo", 10);
    let command = clean_command(&pr);
    assert_eq!(command.program, "cargo");
    assert_eq!(command.args, vec![p("clean"), p("--manifest-path"), p("/w/demo/Cargo.toml")]);
    assert_eq!(command.dir, p("/w/demo"));
}

#[test]
fn locates_the_manifest_of_a_cargo_command() {
    let cwd = p("/w");
    assert_eq!(resolve_manifest_path(&p("/x/Cargo.toml"), Some(&cwd)), Some(p("/x/Cargo.toml")));
    assert_eq!(resolve_manifest_path(&p("/x/Cargo.toml"), None), Some(p("/x/Cargo.toml")));
    assert_eq!(resolve_manifest_path(&p("demo/Cargo.toml"), Some(&cwd)), Some(p("/w/demo/Cargo.toml")));
    assert_eq!(resolve_manifest_path(&p("demo/Cargo.toml"), None), None);
    assert_eq!(manifest_scope_directory(p("/w/demo/Cargo.toml"), false), Some(p("/w/demo")));
    assert_eq!(manifest_scope_directory(p("/w/demo"), true), Some(p("/w/demo")));
    assert_eq!(manifest_scope_directory(p("/"), false), None);
}
