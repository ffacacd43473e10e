use rucycle::scan::{
    assemble_report, holds_project_table, is_cargo_manifest, is_discovery_skip_dir, is_rust_manifest,
    project_from_stats, project_name, scan_root_start, sort_projects, target_path, unique_candidates,
    Candidate, Discovery, ManifestError, ProjectInfo, ProjectStats, ScanStart, ScanWarning, SortKey,
};

fn p(s: &str) -> Vec<u8> {
    s.as_bytes().to_vec()
}

fn project(root: &str, target: u64, total: u64, modified: i128) -> ProjectInfo {
    ProjectInfo {
        root: p(root),
        manifest_path: p(&format!("{root}/Cargo.toml")),
        name: root.rsplit('/').next().unwrap().to_string(),
        total_size: total,
        target_size: target,
        last_modified: modified,
    }
}

fn roots(projects: &[ProjectInfo]) -> Vec<String> {
    projects.iter().map(|p| String::from_utf8(p.root.clone()).unwrap()).collect()
}

#[test]
fn sorts_by_target_size_then_total_then_time_then_path() {
    let mut projects = vec![
        project("/w/small", 10, 100, 5),
        project("/w/big", 500, 600, 1),
        project("/w/b", 10, 200, 5),
        project("/w/a", 10, 200, 5),
        project("/w/newer", 10, 200, 9),
    ];
    sort_projects(&mut projects, SortKey::Size);
    assert_eq!(roots(&projects), vec!["/w/big", "/w/newer", "/w/a", "/w/b", "/w/small"]);
}

#[test]
fn sorts_by_modification_then_target_then_path() {
    let mut projects = vec![
        project("/w/old", 900, 900, 1),
        project("/w/new-small", 1, 5, 50),
        project("/w/new-big", 70, 80, 50),
        project("/w/newest", 0, 0, 99),
        project("/w/a", 1, 1000, 50),
    ];
    sort_projects(&mut projects, SortKey::Modified);
    assert_eq!(roots(&projects), vec!["/w/newest", "/w/new-big", "/w/a", "/w/new-small", "/w/old"]);
}

#[test]
fn sorting_keeps_ties_in_order_and_is_idempotent() {
    let mut projects = vec![project("/w/x", 1, 1, 1), project("/w/x/", 1, 1, 1), project("/w/a", 1, 1, 1)];
    projects[0].name = "first".to_string();
    projects[1].name = "second".to_string();
    sort_projects(&mut projects, SortKey::Size);
    let names: Vec<&str> = projects.iter().map(|p| p.name.as_str()).collect();
    assert_eq!(names, vec!["a", "first", "second"]);
    let before = roots(&projects);
    sort_projects(&mut projects, SortKey::Size);
    assert_eq!(roots(&projects), before);
}

#[test]
fn recognizes_rust_manifests() {
    assert_eq!(is_rust_manifest("[package]\nname = \"demo\"\n"), Ok(true));
    assert_eq!(is_rust_manifest("[workspace]\nmembers = []\n"), Ok(true));
    assert_eq!(is_rust_manifest("[not_package]\nvalue = true\n"), Ok(false));
    assert_eq!(is_rust_manifest("package = 3\n"), Ok(false));
    assert_eq!(is_rust_manifest("package = { name = \"x\" }\n"), Ok(true));
    assert_eq!(is_rust_manifest("[package]\n"), Ok(true));
    assert_eq!(is_rust_manifest("[package\n"), Err(ManifestError::Unparsable));
    assert_eq!(is_rust_manifest(""), Ok(false));
}

#[test]
fn discovery_ignores_manifests_without_package() {
    let mut discovery = Discovery::new();
    discovery.consider_manifest(p("/t/Cargo.toml"), Some(p("/t")), Some("[not_package]\nvalue = true\n"));
    assert!(discovery.candidates.is_empty());
    assert!(discovery.warnings.is_empty());
}

#[test]
fn discovery_collects_candidates_and_warnings() {
    let mut discovery = Discovery::new();
    discovery.consider_manifest(p("/t/demo/Cargo.toml"), Some(p("/t/demo")), Some("[package]\nname = \"demo\"\n"));
    discovery.consider_manifest(p("/t/bad/Cargo.toml"), Some(p("/t/bad")), Some("[[["));
    discovery.consider_manifest(p("/t/locked/Cargo.toml"), Some(p("/t/locked")), None);
    discovery.walk_error("permission denied".to_string());
    assert_eq!(discovery.candidates.len(), 1);
    assert_eq!(discovery.candidates[0].root, p("/t/demo"));
    assert_eq!(discovery.candidates[0].manifest_path, p("/t/demo/Cargo.toml"));
    let messages: Vec<&str> = discovery.warnings.iter().map(|w| w.message.as_str()).collect();
    assert_eq!(
        messages,
        vec!["failed to parse /t/bad/Cargo.toml", "failed to read /t/locked/Cargo.toml", "permission denied"]
    );
    assert_eq!(discovery.warnings[0].path, Some(p("/t/bad/Cargo.toml")));
    assert_eq!(discovery.warnings[2].path, None);
}

#[test]
fn walk_filters_skip_the_right_directories() {
    assert!(is_discovery_skip_dir(1, true, Some("target")));
    assert!(is_discovery_skip_dir(3, true, Some("node_modules")));
    assert!(is_discovery_skip_dir(2, true, Some(".git")));
    assert!(!is_discovery_skip_dir(0, true, Some("target")));
    assert!(!is_discovery_skip_dir(1, false, Some("target")));
    assert!(!is_discovery_skip_dir(1, true, Some("src")));
    assert!(!is_discovery_skip_dir(1, true, None));
    assert!(is_cargo_manifest(true, b"Cargo.toml"));
    assert!(!is_cargo_manifest(false, b"Cargo.toml"));
    assert!(!is_cargo_manifest(true, b"cargo.toml"));
}

#[test]
fn keeps_the_first_candidate_of_each_root() {
    let candidates = vec![
        Candidate { root: p("/a/x"), manifest_path: p("/a/x/Cargo.toml") },
        Candidate { root: p("/a/y"), manifest_path: p("/a/y/Cargo.toml") },
        Candidate { root: p("/a/x/"), manifest_path: p("/a/x/other.toml") },
    ];
    let unique = unique_candidates(candidates);
    assert_eq!(unique.len(), 2);
    assert_eq!(unique[0].manifest_path, p("/a/x/Cargo.toml"));
    assert_eq!(unique[1].root, p("/a/y"));
}

#[test]
fn names_projects_by_their_directory() {
    assert_eq!(project_name(&p("/home/me/demo")), "demo");
    assert_eq!(project_name(&p("/home/me/demo/")), "demo");
    assert_eq!(project_name(&p("/home/me/..")), "/home/me/..");
    assert_eq!(project_name(&p("/")), "/");
    assert_eq!(project_name(&vec![0xff, b'/', 0xfe]), "project");
    assert_eq!(project_name(&vec![b'/', b'x', b'/', 0xfe]), "project");
}

#[test]
fn measures_a_project_and_its_target() {
    let root = p("/tmp/t/demo");
    let target = target_path(&root);
    assert_eq!(target, p("/tmp/t/demo/target"));
    let mut stats = ProjectStats::new();
    stats.record_file(&p("/tmp/t/demo/Cargo.toml"), 60, Some(100), &target);
    stats.record_file(&p("/tmp/t/demo/src/main.rs"), 13, Some(300), &target);
    stats.record_file(&p("/tmp/t/demo/target/debug/app"), 2048, None, &target);
    stats.record_file(&p("/tmp/t/demo/targets/notes"), 7, Some(200), &target);
    let (project, warnings) = project_from_stats(
        Candidate { root: root.clone(), manifest_path: p("/tmp/t/demo/Cargo.toml") },
        stats,
    );
    assert!(warnings.is_empty());
    let report = assemble_report(p("/tmp/t"), Vec::new(), vec![(project, warnings)], SortKey::Size);
    assert_eq!(report.projects.len(), 1);
    assert_eq!(report.projects[0].name, "demo");
    assert_eq!(report.projects[0].target_size, 2048);
    assert_eq!(report.projects[0].total_size, 2048 + 60 + 13 + 7);
    assert_eq!(report.projects[0].last_modified, 300);
    assert_eq!(report.projects[0].display_path(&report.scan_root), p("demo"));
}

#[test]
fn stats_saturate_and_default_to_the_epoch() {
    let target = target_path(&p("/r"));
    let mut stats = ProjectStats::new();
    stats.record_file(&p("/r/target/a"), u64::MAX - 1, None, &target);
    stats.record_file(&p("/r/target/b"), 5, None, &target);
    assert_eq!(stats.total_size, u64::MAX);
    assert_eq!(stats.target_size, u64::MAX);
    stats.record_warning(Some(p("/r/x")), "denied".to_string());
    let (project, warnings) = project_from_stats(Candidate { root: p("/r"), manifest_path: p("/r/Cargo.toml") }, stats);
    assert_eq!(project.last_modified, 0);
    assert_eq!(warnings.len(), 1);
    assert_eq!(target_path(&p("/r/")), p("/r/target"));
    assert_eq!(target_path(&p("")), p("target"));
}

#[test]
fn report_lists_warnings_in_order_and_sorts_projects() {
    let w = |m: &str| ScanWarning::new(None, m.to_string());
    let results = vec![
        (project("/s/a", 1, 1, 1), vec![w("a1"), w("a2")]),
        (project("/s/b", 9, 9, 1), vec![w("b1")]),
    ];
    let report = assemble_report(p("/s"), vec![w("walk")], results, SortKey::Size);
    let messages: Vec<&str> = report.warnings.iter().map(|w| w.message.as_str()).collect();
    assert_eq!(messages, vec!["walk", "a1", "a2", "b1"]);
    assert_eq!(roots(&report.projects), vec!["/s/b", "/s/a"]);
}

#[test]
fn shows_paths_relative_to_the_scan_root() {
    let pr = project("/s/x/y", 0, 0, 0);
    assert_eq!(pr.display_path(&p("/s")), p("x/y"));
    assert_eq!(pr.display_path(&p("/s/x/y")), p("."));
    assert_eq!(pr.display_path(&p("/other")), p("/s/x/y"));
    assert_eq!(pr.display_path(&p("/s/")), p("x/y"));
}

#[test]
fn shows_the_rest_of_the_path_as_written() {
    assert_eq!(project("/s/a//b", 0, 0, 0).display_path(&p("/s")), p("a//b"));
    assert_eq!(project("/s/x/y/", 0, 0, 0).display_path(&p("/s")), p("x/y"));
    assert_eq!(project("/s//./x/./y/.//", 0, 0, 0).display_path(&p("/s")), p("x/./y"));
    assert_eq!(project("/s/./", 0, 0, 0).display_path(&p("/s")), p("."));
    assert_eq!(project("/a/b/", 0, 0, 0).display_path(&p("")), p("/a/b"));
    assert_eq!(project("/./", 0, 0, 0).display_path(&p("")), p("/"));
    assert_eq!(project("./x", 0, 0, 0).display_path(&p(".")), p("x"));
    assert_eq!(project("/s/../t", 0, 0, 0).display_path(&p("/s")), p("../t"));
}

#[test]
fn decides_where_a_scan_starts() {
    assert_eq!(scan_root_start(false, false, false, None), Err("path does not exist".to_string()));
    assert_eq!(scan_root_start(true, true, false, Some("Cargo.toml")), Ok(ScanStart::ManifestDirectory));
    assert_eq!(
        scan_root_start(true, true, false, Some("main.rs")),
        Err("path is a file; pass a directory or a Cargo.toml".to_string())
    );
    assert_eq!(scan_root_start(true, false, false, Some("x")), Err("path is not a directory".to_string()));
    assert_eq!(scan_root_start(true, false, true, Some("x")), Ok(ScanStart::Directory));
}

#[test]
fn finds_package_and_workspace_tables() {
    let entry = |k: &str, t: bool| (k.to_string(), t);
    assert!(holds_project_table(&vec![entry("dependencies", true), entry("package", true)]));
    assert!(holds_project_table(&vec![entry("workspace", true)]));
    assert!(!holds_project_table(&vec![entry("package", false)]));
    assert!(!holds_project_table(&vec![entry("dependencies", true)]));
    assert!(!holds_project_table(&vec![]));
}

#[test]
fn sorting_two_orders_of_the_same_projects_agrees() {
    let a = vec![project("/s/a", 5, 9, 1), project("/s/b", 5, 9, 1), project("/s/c", 7, 9, 0)];
    let mut first: Vec<ProjectInfo> = a.iter().map(|p| p.duplicate()).collect();
    let mut second: Vec<ProjectInfo> = a.iter().rev().map(|p| p.duplicate()).collect();
    for key in [SortKey::Size, SortKey::Modified] {
        sort_projects(&mut first, key);
        sort_projects(&mut second, key);
        assert_eq!(roots(&first), roots(&second));
    }
    sort_projects(&mut first, SortKey::Size);
    assert_eq!(roots(&first), vec!["/s/c", "/s/a", "/s/b"]);
}

#[test]
fn report_roots_stay_distinct() {
    let unique = unique_candidates(vec![
        Candidate { root: p("/s/a"), manifest_path: p("/s/a/Cargo.toml") },
        Candidate { root: p("/s/a/"), manifest_path: p("/s/a/Cargo.toml") },
        Candidate { root: p("/s/b"), manifest_path: p("/s/b/Cargo.toml") },
    ]);
    assert_eq!(unique.len(), 2);
    let results = unique.into_iter().map(|c| project_from_stats(c, ProjectStats::new())).collect();
    let report = assemble_report(p("/s"), vec![], results, SortKey::Size);
    assert_eq!(roots(&report.projects), vec!["/s/a", "/s/b"]);
}
