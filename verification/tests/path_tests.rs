use rucycle::cleaner::paths_share_project_tree;
use rucycle::paths::{
    compare_paths, is_absolute, join_relative, path_components, path_parent, path_starts_with,
    rest_after, same_path, Component,
};

fn p(s: &str) -> Vec<u8> {
    s.as_bytes().to_vec()
}

fn names(path: &str) -> Vec<String> {
    path_components(&p(path))
        .iter()
        .map(|c| match c {
            Component::RootDir => "/".to_string(),
            Component::CurDir => ".".to_string(),
            Component::ParentDir => "..".to_string(),
            Component::Normal(n) => String::from_utf8(n.clone()).unwrap(),
        })
        .collect()
}

#[test]
fn project_tree_match_blocks_ancestors_and_descendants_only() {
    let workspace = p("/tmp/scan/workspace");
    let member = p("/tmp/scan/workspace/member");
    let sibling = p("/tmp/scan/sibling");

    assert!(paths_share_project_tree(&workspace, &member));
    assert!(paths_share_project_tree(&member, &workspace));
    assert!(!paths_share_project_tree(&member, &sibling));
}

#[test]
fn project_tree_match_goes_by_whole_components() {
    assert!(!paths_share_project_tree(&p("/work/app"), &p("/work/application")));
    assert!(paths_share_project_tree(&p("/work/app/"), &p("/work//app")));
    assert!(paths_share_project_tree(&p("/work/./app"), &p("/work/app/src")));
    assert!(paths_share_project_tree(&p("/work/app"), &p("/work/app")));
}

#[test]
fn components_follow_the_path_rules() {
    assert_eq!(names("/a//b/./c/"), vec!["/", "a", "b", "c"]);
    assert_eq!(names("./a/../b"), vec![".", "a", "..", "b"]);
    assert_eq!(names("a/."), vec!["a"]);
    assert_eq!(names("."), vec!["."]);
    assert_eq!(names(""), Vec::<String>::new());
    assert_eq!(names("/"), vec!["/"]);
    assert_eq!(names(".hidden/x"), vec![".hidden", "x"]);
}

#[test]
fn paths_compare_component_by_component() {
    assert_eq!(compare_paths(&p("/a/b"), &p("/a/b/")), 0);
    assert_eq!(compare_paths(&p("/a/b"), &p("/a/c")), -1);
    assert_eq!(compare_paths(&p("/a/c"), &p("/a/b/z")), 1);
    assert_eq!(compare_paths(&p("/a"), &p("/a/b")), -1);
    // A separator ends a component, so "/a/b" comes before "/a-b".
    assert_eq!(compare_paths(&p("/a/b"), &p("/a-b")), -1);
    assert_eq!(compare_paths(&p("/x"), &p("x")), -1);
    assert!(same_path(&p("/a/./b"), &p("/a/b")));
    assert!(!same_path(&p("/a/../b"), &p("/b")));
}

#[test]
fn prefix_test_uses_components() {
    assert!(path_starts_with(&p("/a/b/c"), &p("/a/b")));
    assert!(path_starts_with(&p("/a/b"), &p("/a/b")));
    assert!(!path_starts_with(&p("/a/bc"), &p("/a/b")));
    assert!(!path_starts_with(&p("/a"), &p("/a/b")));
    assert!(path_starts_with(&p("/a/b/target/debug/x"), &p("/a/b/target")));
}

#[test]
fn joins_and_takes_parents_like_std_paths() {
    assert_eq!(join_relative(&p("/w"), &p("a/Cargo.toml")), p("/w/a/Cargo.toml"));
    assert_eq!(join_relative(&p("/w/"), &p("Cargo.toml")), p("/w/Cargo.toml"));
    assert_eq!(join_relative(&p(""), &p("Cargo.toml")), p("Cargo.toml"));
    assert!(is_absolute(&p("/x")));
    assert!(!is_absolute(&p("x/y")));
    assert_eq!(path_parent(&p("/w/a/Cargo.toml")), Some(p("/w/a")));
    assert_eq!(path_parent(&p("/w/a//./")), Some(p("/w")));
    assert_eq!(path_parent(&p("/a")), Some(p("/")));
    assert_eq!(path_parent(&p("/")), None);
    assert_eq!(path_parent(&p("")), None);
    assert_eq!(path_parent(&p("a")), Some(p("")));
    assert_eq!(path_parent(&p("./a")), Some(p(".")));
    assert_eq!(path_parent(&p("./")), Some(p("")));
    assert_eq!(path_parent(&p("a/..")), Some(p("a")));
}

#[test]
fn leaves_the_rest_after_components() {
    assert_eq!(rest_after(&p("/s/a//b/"), 2), p("a//b"));
    assert_eq!(rest_after(&p("/s/a"), 0), p("/s/a"));
    assert_eq!(rest_after(&p("/s/a"), 3), p(""));
}
