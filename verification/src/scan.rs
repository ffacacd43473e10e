//! Projects found under the scan root, their sizes and modification times,
//! and the orders in which they are listed.

use vstd::prelude::*;
use vstd::utf8::*;
use crate::paths::{
    compare_paths, components, lemma_order_paths_laws, order_paths, path_components,
    joined, lemma_nothing_after_all_components, path_starts_with, rest_after, rest_after_components, same_path, slice_bytes, starts_with,
    views, Component, ComponentView,
};
use crate::text::{chars_to_string, lossy_text, push_str, str_chars, utf8_lossy, utf8_text};

verus! {

/// The order of the project list.
#[derive(Clone, Copy, Debug, PartialEq, Eq, Structural)]
pub enum SortKey {
    /// Largest reclaimable `target/` first.
    Size,
    /// Most recently modified first.
    Modified,
}

/// A Rust project found on disk.
#[derive(Clone, Debug)]
pub struct ProjectInfo {
    /// The directory that holds the manifest (path bytes).
    pub root: Vec<u8>,
    /// The project's `Cargo.toml` (path bytes).
    pub manifest_path: Vec<u8>,
    /// The name shown for the project.
    pub name: String,
    /// Bytes in all files under the project directory.
    pub total_size: u64,
    /// Bytes in files under the project's `target/` directory.
    pub target_size: u64,
    /// The newest modification time of any file under the project, in
    /// nanoseconds after the Unix epoch (negative before it).
    pub last_modified: i128,
}

/// Something that went wrong while scanning, and where.
#[derive(Clone, Debug)]
pub struct ScanWarning {
    pub path: Option<Vec<u8>>,
    pub message: String,
}

impl ScanWarning {
    pub fn new(path: Option<Vec<u8>>, message: String) -> (w: ScanWarning)
        ensures
            w.path == path,
            w.message == message,
    {
        ScanWarning { path, message }
    }
}

/// What a scan found.
#[derive(Clone, Debug)]
pub struct ScanReport {
    pub scan_root: Vec<u8>,
    pub projects: Vec<ProjectInfo>,
    pub warnings: Vec<ScanWarning>,
}

/// A project as plain values.
pub struct ProjectView {
    pub root: Seq<u8>,
    pub manifest_path: Seq<u8>,
    pub name: Seq<char>,
    pub total_size: u64,
    pub target_size: u64,
    pub last_modified: i128,
}

impl View for ProjectInfo {
    type V = ProjectView;

    open spec fn view(&self) -> ProjectView {
        ProjectView {
            root: self.root@,
            manifest_path: self.manifest_path@,
            name: self.name@,
            total_size: self.total_size,
            target_size: self.target_size,
            last_modified: self.last_modified,
        }
    }
}

/// The plain values of a list of projects.
pub open spec fn project_views(s: Seq<ProjectInfo>) -> Seq<ProjectView> {
    s.map_values(|p: ProjectInfo| p@)
}

impl ProjectInfo {
    /// A copy of the project.
    pub fn duplicate(&self) -> (r: ProjectInfo)
        ensures
            r@ == self@,
    {
        let root = slice_bytes(&self.root, 0, self.root.len());
        let manifest_path = slice_bytes(&self.manifest_path, 0, self.manifest_path.len());
        assert(root@ =~= self.root@);
        assert(manifest_path@ =~= self.manifest_path@);
        ProjectInfo {
            root,
            manifest_path,
            name: self.name.clone(),
            total_size: self.total_size,
            target_size: self.target_size,
            last_modified: self.last_modified,
        }
    }
}

/// Three-way comparison of two numbers, larger first.
pub open spec fn descending(a: int, b: int) -> int {
    if a > b {
        -1
    } else if a < b {
        1
    } else {
        0
    }
}

/// Where `a` stands relative to `b` in the list sorted by `sort`: -1 before,
/// 1 after, 0 tied.
///
/// By size: larger `target/` first, then larger total size, then newer,
/// then by path. By modification: newer first, then larger `target/`, then
/// by path.
pub open spec fn project_order(a: ProjectView, b: ProjectView, sort: SortKey) -> int {
    match sort {
        SortKey::Size => {
            if a.target_size != b.target_size {
                descending(a.target_size as int, b.target_size as int)
            } else if a.total_size != b.total_size {
                descending(a.total_size as int, b.total_size as int)
            } else if a.last_modified != b.last_modified {
                descending(a.last_modified as int, b.last_modified as int)
            } else {
                order_paths(a.root, b.root)
            }
        },
        SortKey::Modified => {
            if a.last_modified != b.last_modified {
                descending(a.last_modified as int, b.last_modified as int)
            } else if a.target_size != b.target_size {
                descending(a.target_size as int, b.target_size as int)
            } else {
                order_paths(a.root, b.root)
            }
        },
    }
}

/// The order of projects is a total preorder.
pub proof fn lemma_project_order_laws(a: ProjectView, b: ProjectView, c: ProjectView, sort: SortKey)
    ensures
        project_order(a, b, sort) == -project_order(b, a, sort),
        -1 <= project_order(a, b, sort) <= 1,
        project_order(a, a, sort) == 0,
        project_order(a, b, sort) <= 0 && project_order(b, c, sort) <= 0 ==> project_order(
            a,
            c,
            sort,
        ) <= 0,
{
    lemma_order_paths_laws(a.root, b.root, c.root);
    lemma_order_paths_laws(a.root, a.root, a.root);
}

/// Whether `s` lists its projects in the order of `sort`.
pub open spec fn sorted_by(s: Seq<ProjectView>, sort: SortKey) -> bool {
    forall|i: int, j: int| 0 <= i < j < s.len() ==> project_order(s[i], s[j], sort) <= 0
}

/// `out` holds the projects of `input`, the one at `k` being `input[perm[k]]`,
/// and tied projects keep the relative order they had in `input`.
pub open spec fn stable_arrangement(
    out: Seq<ProjectView>,
    input: Seq<ProjectView>,
    perm: Seq<int>,
    sort: SortKey,
) -> bool {
    &&& perm.len() == out.len() == input.len()
    &&& forall|k: int| 0 <= k < out.len() ==> 0 <= #[trigger] perm[k] < input.len()
    &&& forall|k: int| 0 <= k < out.len() ==> out[k] == input[#[trigger] perm[k]]
    &&& forall|k: int, l: int| 0 <= k < l < out.len() ==> #[trigger] perm[k] != #[trigger] perm[l]
    &&& forall|k: int, l: int|
        0 <= k < l < out.len() && project_order(out[k], out[l], sort) == 0 ==> #[trigger] perm[k]
            < #[trigger] perm[l]
}

/// `out` is `input` sorted by `sort`, ties in their original order.
pub open spec fn stably_sorted(out: Seq<ProjectView>, input: Seq<ProjectView>, sort: SortKey) -> bool {
    &&& sorted_by(out, sort)
    &&& exists|perm: Seq<int>| stable_arrangement(out, input, perm, sort)
}

/// Three-way comparison of two projects in the order of `sort`.
pub fn compare_projects(a: &ProjectInfo, b: &ProjectInfo, sort: SortKey) -> (r: i8)
    ensures
        r == project_order(a@, b@, sort),
{
    match sort {
        SortKey::Size => {
            if a.target_size != b.target_size {
                if a.target_size > b.target_size { -1 } else { 1 }
            } else if a.total_size != b.total_size {
                if a.total_size > b.total_size { -1 } else { 1 }
            } else if a.last_modified != b.last_modified {
                if a.last_modified > b.last_modified { -1 } else { 1 }
            } else {
                compare_paths(&a.root, &b.root)
            }
        },
        SortKey::Modified => {
            if a.last_modified != b.last_modified {
                if a.last_modified > b.last_modified { -1 } else { 1 }
            } else if a.target_size != b.target_size {
                if a.target_size > b.target_size { -1 } else { 1 }
            } else {
                compare_paths(&a.root, &b.root)
            }
        },
    }
}

/// Sorts the projects by `sort`; projects that tie keep their order.
pub fn sort_projects(projects: &mut Vec<ProjectInfo>, sort: SortKey)
    ensures
        stably_sorted(project_views(final(projects)@), project_views(old(projects)@), sort),
        final(projects).len() == old(projects).len(),
{
    let mut items: Vec<ProjectInfo> = Vec::new();
    std::mem::swap(&mut items, projects);
    let ghost input = project_views(items@);
    let n = items.len();
    let mut out: Vec<ProjectInfo> = Vec::new();
    let ghost mut perm: Seq<int> = seq![];
    let mut i: usize = 0;
    while i < n
        invariant
            i <= n == input.len(),
            items.len() == n - i,
            forall|k: int| 0 <= k < items.len() ==> #[trigger] items@[k]@ == input[i + k],
            out.len() == i,
            forall|k: int, l: int|
                0 <= k < l < i ==> project_order(#[trigger] out@[k]@, #[trigger] out@[l]@, sort)
                    <= 0,
            perm.len() == i,
            forall|k: int| 0 <= k < i ==> 0 <= #[trigger] perm[k] < i,
            forall|k: int| 0 <= k < i ==> out@[k]@ == input[#[trigger] perm[k]],
            forall|k: int, l: int| 0 <= k < l < i ==> #[trigger] perm[k] != #[trigger] perm[l],
            forall|k: int, l: int|
                0 <= k < l < i && project_order(out@[k]@, out@[l]@, sort) == 0 ==> #[trigger] perm[k]
                    < #[trigger] perm[l],
        decreases n - i,
    {
        let ghost before_items = items@;
        let x = items.remove(0);
        assert(x@ == input[i as int]) by {
            assert(before_items[0]@ == input[i + 0]);
        }
        assert forall|k: int| 0 <= k < items.len() implies #[trigger] items@[k]@ == input[i + 1 + k] by {
            assert(items@[k] == before_items[k + 1]);
            assert(before_items[k + 1]@ == input[i + (k + 1)]);
        }
        let mut p: usize = 0;
        while p < out.len() && compare_projects(&out[p], &x, sort) <= 0
            invariant
                p <= out.len(),
                forall|k: int| 0 <= k < p ==> project_order(#[trigger] out@[k]@, x@, sort) <= 0,
            decreases out.len() - p,
        {
            p = p + 1;
        }
        proof {
            if p < out.len() {
                assert forall|l: int| p <= l < out.len() implies project_order(x@, #[trigger] out@[l]@, sort) < 0 by {
                    lemma_project_order_laws(out@[p as int]@, out@[l]@, x@, sort);
                    lemma_project_order_laws(out@[l]@, x@, x@, sort);
                    if l > p {
                        assert(project_order(out@[p as int]@, out@[l]@, sort) <= 0);
                    }
                }
            }
        }
        let ghost old_out = out@;
        let ghost old_perm = perm;
        out.insert(p, x);
        proof {
            perm = perm.insert(p as int, i as int);
            assert forall|k: int, l: int| 0 <= k < l < i + 1 implies project_order(#[trigger] out@[k]@, #[trigger] out@[l]@, sort) <= 0 by {
                if l < p {
                    assert(out@[k] == old_out[k]);
                    assert(out@[l] == old_out[l]);
                } else if k < p && l == p {
                    assert(out@[k] == old_out[k]);
                } else if k < p {
                    assert(out@[k] == old_out[k]);
                    assert(out@[l] == old_out[l - 1]);
                } else if k == p {
                    assert(out@[l] == old_out[l - 1]);
                } else {
                    assert(out@[k] == old_out[k - 1]);
                    assert(out@[l] == old_out[l - 1]);
                }
            }
            assert forall|k: int| 0 <= k < i + 1 implies 0 <= #[trigger] perm[k] < i + 1 && out@[k]@ == input[perm[k]] by {
                if k < p {
                    assert(perm[k] == old_perm[k]);
                    assert(out@[k] == old_out[k]);
                } else if k > p {
                    assert(perm[k] == old_perm[k - 1]);
                    assert(out@[k] == old_out[k - 1]);
                }
            }
            assert forall|k: int, l: int| 0 <= k < l < i + 1 implies #[trigger] perm[k] != #[trigger] perm[l] && (project_order(out@[k]@, out@[l]@, sort) == 0 ==> perm[k] < perm[l]) by {
                if l < p {
                    assert(perm[k] == old_perm[k]);
                    assert(perm[l] == old_perm[l]);
                    assert(out@[k] == old_out[k]);
                    assert(out@[l] == old_out[l]);
                } else if k < p && l == p {
                    assert(perm[k] == old_perm[k]);
                    assert(out@[k] == old_out[k]);
                } else if k < p {
                    assert(perm[k] == old_perm[k]);
                    assert(out@[k] == old_out[k]);
                    assert(perm[l] == old_perm[l - 1]);
                    assert(out@[l] == old_out[l - 1]);
                } else if k == p {
                    assert(perm[l] == old_perm[l - 1]);
                    assert(out@[l] == old_out[l - 1]);
                } else {
                    assert(perm[k] == old_perm[k - 1]);
                    assert(perm[l] == old_perm[l - 1]);
                    assert(out@[k] == old_out[k - 1]);
                    assert(out@[l] == old_out[l - 1]);
                }
            }
        }
        i = i + 1;
    }
    let ghost result = project_views(out@);
    assert forall|k: int| 0 <= k < out.len() implies #[trigger] result[k] == out@[k]@ by {}
    assert(stable_arrangement(result, input, perm, sort));
    *projects = out;
}

/// The index of the first project at or after `from` whose root has the
/// components of `root`.
pub open spec fn first_with_root(ps: Seq<ProjectView>, root: Seq<u8>, from: int) -> Option<int>
    decreases ps.len() - from,
{
    if from < 0 || from >= ps.len() {
        None
    } else if components(ps[from].root) == components(root) {
        Some(from)
    } else {
        first_with_root(ps, root, from + 1)
    }
}

pub proof fn lemma_first_with_root_bounds(ps: Seq<ProjectView>, root: Seq<u8>, from: int)
    requires
        0 <= from,
    ensures
        first_with_root(ps, root, from) matches Some(i) ==> from <= i < ps.len() && components(
            ps[i].root,
        ) == components(root),
    decreases ps.len() - from,
{
    if from < ps.len() && components(ps[from].root) != components(root) {
        lemma_first_with_root_bounds(ps, root, from + 1);
    }
}

/// The index of the first project whose root has the components of `root`.
pub fn find_root(projects: &Vec<ProjectInfo>, root: &Vec<u8>) -> (r: Option<usize>)
    ensures
        r matches Some(i) ==> first_with_root(project_views(projects@), root@, 0) == Some(i as int),
        r is None ==> first_with_root(project_views(projects@), root@, 0) is None,
{
    let ghost ps = project_views(projects@);
    let mut i: usize = 0;
    while i < projects.len()
        invariant
            i <= projects.len(),
            ps == project_views(projects@),
            first_with_root(ps, root@, 0) == first_with_root(ps, root@, i as int),
        decreases projects.len() - i,
    {
        assert(ps[i as int] == projects@[i as int]@);
        if same_path(&projects[i].root, root) {
            return Some(i);
        }
        i = i + 1;
    }
    None
}

/// Names of directories that discovery does not enter.
pub open spec fn discovery_skipped(name: Seq<char>) -> bool {
    name == "target"@ || name == "node_modules"@ || name == ".git"@ || name == ".hg"@ || name
        == ".svn"@
}

fn name_is(name: &str, word: &str) -> (r: bool)
    ensures
        r == (name@ == word@),
{
    let a = str_chars(name);
    let b = str_chars(word);
    if a.len() != b.len() {
        return false;
    }
    let mut i: usize = 0;
    while i < a.len()
        invariant
            i <= a.len() == b.len(),
            a@ == name@,
            b@ == word@,
            forall|k: int| 0 <= k < i ==> a@[k] == b@[k],
        decreases a.len() - i,
    {
        if a[i] != b[i] {
            return false;
        }
        i = i + 1;
    }
    assert(a@ =~= b@);
    true
}

/// Whether discovery leaves out a walked entry: a directory below the scan
/// root named `target`, `node_modules`, `.git`, `.hg` or `.svn`. `name` is
/// the entry's file name when it is valid UTF-8.
pub fn is_discovery_skip_dir(depth: usize, is_dir: bool, name: Option<&str>) -> (skip: bool)
    ensures
        skip == (depth != 0 && is_dir && (name matches Some(n) && discovery_skipped(n@))),
{
    if depth == 0 {
        return false;
    }
    is_dir && match name {
        Some(n) => name_is(n, "target") || name_is(n, "node_modules") || name_is(n, ".git")
            || name_is(n, ".hg") || name_is(n, ".svn"),
        None => false,
    }
}

/// Whether a walked entry is a file named `Cargo.toml`.
pub fn is_cargo_manifest(is_file: bool, file_name: &[u8]) -> (r: bool)
    ensures
        r == (is_file && file_name@ == encode_utf8("Cargo.toml"@)),
{
    if !is_file {
        return false;
    }
    let want = "Cargo.toml".as_bytes();
    if file_name.len() != want.len() {
        return false;
    }
    let mut i: usize = 0;
    while i < want.len()
        invariant
            i <= want.len() == file_name.len(),
            want@ == encode_utf8("Cargo.toml"@),
            forall|k: int| 0 <= k < i ==> file_name@[k] == want@[k],
        decreases want.len() - i,
    {
        if file_name[i] != want[i] {
            return false;
        }
        i = i + 1;
    }
    assert(file_name@ =~= want@);
    true
}

/// The top-level keys of the TOML document `text`, each with whether its
/// value is a table, or `None` when `text` is not a TOML document.
pub uninterp spec fn toml_top_level_entries(text: Seq<char>) -> Option<Seq<(Seq<char>, bool)>>;

/// Parses `text` as a TOML document (`toml::Value` from `str::parse`) and
/// lists the keys of its top-level table, each with whether its value is a
/// table. Stated: the result is a function of the text alone; which texts
/// parse, and to what, is left to the parser.
#[verifier::external_body]
fn toml_entries(text: &str) -> (entries: Option<Vec<(String, bool)>>)
    ensures
        entries matches Some(e) ==> toml_top_level_entries(text@) == Some(
            e@.map_values(|p: (String, bool)| (p.0@, p.1)),
        ),
        entries is None ==> toml_top_level_entries(text@) is None,
{
    match text.parse::<toml::Value>() {
        Ok(toml::Value::Table(table)) => Some(
            table.iter().map(|(k, v)| (k.clone(), matches!(v, toml::Value::Table(_)))).collect(),
        ),
        Ok(_) => Some(Vec::new()),
        Err(_) => None,
    }
}

/// Why a manifest could not be looked at.
#[derive(Clone, Copy, Debug, PartialEq, Eq, Structural)]
pub enum ManifestError {
    /// The file could not be read.
    Unreadable,
    /// The file is not TOML.
    Unparsable,
}

/// Whether top-level entries of a manifest hold a `package` or a
/// `workspace` table.
pub open spec fn has_project_table(entries: Seq<(Seq<char>, bool)>) -> bool {
    entries.contains(("package"@, true)) || entries.contains(("workspace"@, true))
}

/// Whether a manifest's text makes a Rust project: a TOML document with a
/// `package` or a `workspace` table at the top.
pub open spec fn rust_manifest(text: Seq<char>) -> Result<bool, ManifestError> {
    match toml_top_level_entries(text) {
        Some(entries) => Ok(has_project_table(entries)),
        None => Err(ManifestError::Unparsable),
    }
}

/// Whether the top-level entries of a parsed manifest (each key with whether
/// its value is a table) hold a `package` or a `workspace` table.
pub fn holds_project_table(entries: &Vec<(String, bool)>) -> (r: bool)
    ensures
        r == has_project_table(entries@.map_values(|p: (String, bool)| (p.0@, p.1))),
{
    let ghost es = entries@.map_values(|p: (String, bool)| (p.0@, p.1));
    let mut found = false;
    let mut i: usize = 0;
    while i < entries.len()
        invariant
            i <= entries.len(),
            es == entries@.map_values(|p: (String, bool)| (p.0@, p.1)),
            found == (exists|k: int|
                0 <= k < i && (es[k] == ("package"@, true) || es[k] == ("workspace"@, true))),
        decreases entries.len() - i,
    {
        assert(es[i as int] == (entries@[i as int].0@, entries@[i as int].1));
        let (key, is_table) = &entries[i];
        if *is_table && (name_is(key.as_str(), "package") || name_is(key.as_str(), "workspace")) {
            found = true;
        }
        i = i + 1;
    }
    proof {
        if found {
            let k = choose|k: int|
                0 <= k < entries.len() && (es[k] == ("package"@, true) || es[k] == ("workspace"@, true));
            if es[k] == ("package"@, true) {
                assert(es.contains(("package"@, true)));
            } else {
                assert(es.contains(("workspace"@, true)));
            }
        }
    }
    found
}

/// Whether the text of a `Cargo.toml` describes a package or a workspace.
pub fn is_rust_manifest(contents: &str) -> (r: Result<bool, ManifestError>)
    ensures
        r == rust_manifest(contents@),
{
    match toml_entries(contents) {
        None => Err(ManifestError::Unparsable),
        Some(entries) => Ok(holds_project_table(&entries)),
    }
}

/// A directory with a Rust manifest, before it is measured.
#[derive(Clone, Debug)]
pub struct Candidate {
    pub root: Vec<u8>,
    pub manifest_path: Vec<u8>,
}

/// The message of a warning about a manifest.
pub open spec fn manifest_warning_text(path: Seq<u8>, error: ManifestError) -> Seq<char> {
    match error {
        ManifestError::Unreadable => "failed to read "@ + utf8_lossy(path),
        ManifestError::Unparsable => "failed to parse "@ + utf8_lossy(path),
    }
}

/// What discovery has found so far: candidate projects and warnings.
pub struct Discovery {
    pub candidates: Vec<Candidate>,
    pub warnings: Vec<ScanWarning>,
}

impl Discovery {
    pub fn new() -> (d: Discovery)
        ensures
            d.candidates@.len() == 0,
            d.warnings@.len() == 0,
    {
        Discovery { candidates: Vec::new(), warnings: Vec::new() }
    }

    /// Notes that the walk could not read an entry.
    pub fn walk_error(&mut self, message: String)
        ensures
            final(self).candidates == old(self).candidates,
            final(self).warnings@.len() == old(self).warnings@.len() + 1,
            forall|i: int| 0 <= i < old(self).warnings@.len() ==> final(self).warnings@[i] == old(self).warnings@[i],
            final(self).warnings@.last().path is None,
            final(self).warnings@.last().message == message,
    {
        self.warnings.push(ScanWarning { path: None, message });
    }

    /// Looks at one `Cargo.toml`: its text, or `None` when it could not be
    /// read, and the directory that holds it. A Rust manifest makes the
    /// directory a candidate; any other TOML is passed over; an unreadable
    /// or non-TOML file is reported.
    pub fn consider_manifest(&mut self, manifest_path: Vec<u8>, root: Option<Vec<u8>>, contents: Option<&str>)
        ensures
            ({
                let outcome = match contents {
                    Some(text) => rust_manifest(text@),
                    None => Err(ManifestError::Unreadable),
                };
                match outcome {
                    Ok(true) => match root {
                        Some(r) => {
                            &&& final(self).warnings == old(self).warnings
                            &&& final(self).candidates@.len() == old(self).candidates@.len() + 1
                            &&& forall|i: int| 0 <= i < old(self).candidates@.len() ==> final(self).candidates@[i] == old(self).candidates@[i]
                            &&& final(self).candidates@.last().root@ == r@
                            &&& final(self).candidates@.last().manifest_path@ == manifest_path@
                        },
                        None => final(self).warnings == old(self).warnings && final(self).candidates == old(self).candidates,
                    },
                    Ok(false) => final(self).warnings == old(self).warnings && final(self).candidates == old(self).candidates,
                    Err(e) => {
                        &&& final(self).candidates == old(self).candidates
                        &&& final(self).warnings@.len() == old(self).warnings@.len() + 1
                        &&& forall|i: int| 0 <= i < old(self).warnings@.len() ==> final(self).warnings@[i] == old(self).warnings@[i]
                        &&& final(self).warnings@.last().path matches Some(p) && p@ == manifest_path@
                        &&& final(self).warnings@.last().message@ == manifest_warning_text(manifest_path@, e)
                    },
                }
            }),
    {
        let outcome = match contents {
            Some(text) => is_rust_manifest(text),
            None => Err(ManifestError::Unreadable),
        };
        match outcome {
            Ok(true) => {
                if let Some(r) = root {
                    self.candidates.push(Candidate { root: r, manifest_path });
                }
            },
            Ok(false) => {},
            Err(e) => {
                let mut text: Vec<char> = Vec::new();
                match e {
                    ManifestError::Unreadable => push_str(&mut text, "failed to read "),
                    ManifestError::Unparsable => push_str(&mut text, "failed to parse "),
                }
                push_str(&mut text, lossy_text(manifest_path.as_slice()).as_str());
                self.warnings.push(ScanWarning { path: Some(manifest_path), message: chars_to_string(&text) });
            },
        }
    }
}

/// Whether no candidate before index `i` has the root (by components) of
/// the one at `i`.
pub open spec fn first_of_its_root(roots: Seq<Seq<u8>>, i: int) -> bool {
    forall|j: int| 0 <= j < i ==> components(#[trigger] roots[j]) != components(roots[i])
}

/// The indices below `n` of the first candidate of each root, in order.
pub open spec fn kept_indices(roots: Seq<Seq<u8>>, n: int) -> Seq<int>
    decreases n,
{
    if n <= 0 {
        seq![]
    } else if first_of_its_root(roots, n - 1) {
        kept_indices(roots, n - 1).push(n - 1)
    } else {
        kept_indices(roots, n - 1)
    }
}

pub open spec fn candidate_roots(cs: Seq<Candidate>) -> Seq<Seq<u8>> {
    cs.map_values(|c: Candidate| c.root@)
}

/// Keeps the first candidate of each root (roots with the same components
/// are the same root), in order.
pub fn unique_candidates(candidates: Vec<Candidate>) -> (unique: Vec<Candidate>)
    ensures
        ({
            let idx = kept_indices(candidate_roots(candidates@), candidates@.len() as int);
            &&& unique@.len() == idx.len()
            &&& forall|k: int| 0 <= k < idx.len() ==> #[trigger] unique@[k] == candidates@[idx[k]]
        }),
        forall|k: int, l: int|
            0 <= k < l < unique@.len() ==> components(#[trigger] unique@[k].root@) != components(
                #[trigger] unique@[l].root@,
            ),
{
    let ghost input = candidates@;
    let ghost roots = candidate_roots(input);
    let n = candidates.len();
    let mut rest = candidates;
    let mut unique: Vec<Candidate> = Vec::new();
    let mut seen: Vec<Vec<u8>> = Vec::new();
    let mut i: usize = 0;
    while i < n
        invariant
            i <= n == input.len(),
            roots == candidate_roots(input),
            rest@ == input.skip(i as int),
            seen.len() == i,
            forall|k: int| 0 <= k < i ==> #[trigger] seen@[k]@ == roots[k],
            unique@.len() == kept_indices(roots, i as int).len(),
            forall|k: int|
                0 <= k < unique@.len() ==> #[trigger] unique@[k] == input[kept_indices(roots, i as int)[k]],
        decreases n - i,
    {
        let c = rest.remove(0);
        assert(c == input[i as int]);
        assert(rest@ =~= input.skip(i + 1));
        assert(roots[i as int] == input[i as int].root@);
        let mut fresh = true;
        let mut j: usize = 0;
        while j < i
            invariant
                j <= i == seen.len(),
                i < roots.len(),
                roots[i as int] == c.root@,
                forall|k: int| 0 <= k < i ==> #[trigger] seen@[k]@ == roots[k],
                fresh == (forall|k: int| 0 <= k < j ==> components(#[trigger] roots[k]) != components(roots[i as int])),
            decreases i - j,
        {
            if same_path(&seen[j], &c.root) {
                fresh = false;
            }
            j = j + 1;
        }
        assert(fresh == first_of_its_root(roots, i as int));
        let copy = slice_bytes(&c.root, 0, c.root.len());
        assert(copy@ =~= c.root@);
        seen.push(copy);
        if fresh {
            unique.push(c);
        }
        i = i + 1;
    }
    proof {
        assert(input.take(n as int) =~= input);
        let idx = kept_indices(roots, n as int);
        lemma_kept_indices_ordered(roots, n as int);
        assert(roots.len() == n);
        assert forall|k: int, l: int| 0 <= k < l < unique@.len() implies components(
            #[trigger] unique@[k].root@,
        ) != components(#[trigger] unique@[l].root@) by {
            lemma_kept_roots_distinct(roots, k, l);
            assert(roots[idx[k]] == input[idx[k]].root@);
            assert(roots[idx[l]] == input[idx[l]].root@);
        }
    }
    unique
}

/// The name shown for a project rooted at `root`: its last component when
/// that is a name in valid UTF-8; otherwise the whole path when that is
/// valid UTF-8; otherwise `project`.
pub open spec fn project_name_text(root: Seq<u8>) -> Seq<char> {
    let parts = components(root);
    let last_name = if parts.len() > 0 {
        match parts.last() {
            ComponentView::Normal(n) => if valid_utf8(n) {
                Some(decode_utf8(n))
            } else {
                None
            },
            _ => None,
        }
    } else {
        None
    };
    if last_name is Some {
        last_name->0
    } else if valid_utf8(root) {
        decode_utf8(root)
    } else {
        "project"@
    }
}

/// The name shown for a project rooted at `root`.
pub fn project_name(root: &Vec<u8>) -> (name: String)
    ensures
        name@ == project_name_text(root@),
{
    let parts = path_components(root);
    proof {
        assert(views(parts@).len() == parts@.len());
    }
    if parts.len() > 0 {
        let last = parts.len() - 1;
        assert(views(parts@)[last as int] == parts@[last as int]@);
        if let Component::Normal(n) = &parts[last] {
            if let Some(text) = utf8_text(n.as_slice()) {
                return text;
            }
        }
    }
    match utf8_text(root.as_slice()) {
        Some(text) => text,
        None => "project".to_owned(),
    }
}

/// The path of the `target` directory of a project rooted at `root`.
pub open spec fn target_dir(root: Seq<u8>) -> Seq<u8> {
    joined(root, encode_utf8("target"@))
}

/// The path of `target` under `root`.
pub fn target_path(root: &Vec<u8>) -> (p: Vec<u8>)
    ensures
        p@ == target_dir(root@),
{
    let mut p = slice_bytes(root, 0, root.len());
    assert(p@ =~= root@);
    if root.len() > 0 && root[root.len() - 1] != 47 {
        p.push(47);
    }
    let name = "target".as_bytes();
    let ghost start = p@;
    let mut i: usize = 0;
    while i < name.len()
        invariant
            i <= name.len(),
            name@ == encode_utf8("target"@),
            p@ == start + name@.take(i as int),
        decreases name.len() - i,
    {
        p.push(name[i]);
        i = i + 1;
        assert(name@.take(i as int) =~= name@.take(i - 1).push(name@[i - 1]));
    }
    assert(name@.take(name.len() as int) =~= name@);
    p
}

/// The larger of two times, if any.
pub open spec fn later(a: Option<i128>, b: i128) -> i128 {
    match a {
        Some(x) => if x >= b {
            x
        } else {
            b
        },
        None => b,
    }
}

/// What the walk of one project has counted so far.
pub struct ProjectStats {
    /// Bytes in all files, adding up without passing the largest `u64`.
    pub total_size: u64,
    /// Bytes in files under `target/`, likewise.
    pub target_size: u64,
    /// The newest modification time seen.
    pub last_modified: Option<i128>,
    pub warnings: Vec<ScanWarning>,
}

/// `a + b`, or the largest `u64` when that is more.
pub open spec fn saturating_sum(a: u64, b: u64) -> u64 {
    if a + b > u64::MAX {
        u64::MAX
    } else {
        (a + b) as u64
    }
}

fn add_saturating(a: u64, b: u64) -> (r: u64)
    ensures
        r == saturating_sum(a, b),
{
    if a > u64::MAX - b {
        u64::MAX
    } else {
        a + b
    }
}

impl ProjectStats {
    pub fn new() -> (s: ProjectStats)
        ensures
            s.total_size == 0,
            s.target_size == 0,
            s.last_modified is None,
            s.warnings@.len() == 0,
    {
        ProjectStats { total_size: 0, target_size: 0, last_modified: None, warnings: Vec::new() }
    }

    /// Counts one regular file at `path`, of `len` bytes, modified at
    /// `modified` when that is known, in the project whose `target`
    /// directory is `target_root`.
    pub fn record_file(&mut self, path: &Vec<u8>, len: u64, modified: Option<i128>, target_root: &Vec<u8>)
        ensures
            final(self).total_size == saturating_sum(old(self).total_size, len),
            final(self).target_size == if starts_with(path@, target_root@) {
                saturating_sum(old(self).target_size, len)
            } else {
                old(self).target_size
            },
            final(self).last_modified == match modified {
                Some(m) => Some(later(old(self).last_modified, m)),
                None => old(self).last_modified,
            },
            final(self).warnings == old(self).warnings,
    {
        self.total_size = add_saturating(self.total_size, len);
        if path_starts_with(path, target_root) {
            self.target_size = add_saturating(self.target_size, len);
        }
        if let Some(m) = modified {
            self.last_modified = Some(
                match self.last_modified {
                    Some(current) => if current >= m {
                        current
                    } else {
                        m
                    },
                    None => m,
                },
            );
        }
    }

    /// Notes that an entry could not be walked or looked at.
    pub fn record_warning(&mut self, path: Option<Vec<u8>>, message: String)
        ensures
            final(self).total_size == old(self).total_size,
            final(self).target_size == old(self).target_size,
            final(self).last_modified == old(self).last_modified,
            final(self).warnings@ == old(self).warnings@.push(ScanWarning { path, message }),
    {
        self.warnings.push(ScanWarning { path, message });
    }
}

/// The `target/` bytes never exceed the total: both count the same files
/// and saturate at the same bound.
pub proof fn lemma_target_within_total(total: u64, target: u64, len: u64, in_target: bool)
    requires
        target <= total,
    ensures
        (if in_target {
            saturating_sum(target, len)
        } else {
            target
        }) <= saturating_sum(total, len),
{
}

/// The project found at `candidate` with the counts in `stats`; a project
/// without a single timed file counts as modified at the epoch.
pub fn project_from_stats(candidate: Candidate, stats: ProjectStats) -> (r: (ProjectInfo, Vec<ScanWarning>))
    ensures
        r.0.root@ == candidate.root@,
        r.0.manifest_path@ == candidate.manifest_path@,
        r.0.name@ == project_name_text(candidate.root@),
        r.0.total_size == stats.total_size,
        r.0.target_size == stats.target_size,
        r.0.last_modified == match stats.last_modified {
            Some(m) => m,
            None => 0,
        },
        r.1 == stats.warnings,
{
    let name = project_name(&candidate.root);
    let last_modified = match stats.last_modified {
        Some(m) => m,
        None => 0,
    };
    (
        ProjectInfo {
            root: candidate.root,
            manifest_path: candidate.manifest_path,
            name,
            total_size: stats.total_size,
            target_size: stats.target_size,
            last_modified,
        },
        stats.warnings,
    )
}

/// The report of a scan: the discovery warnings followed by each project's
/// warnings in order, and the projects sorted by `sort`.
pub fn assemble_report(
    scan_root: Vec<u8>,
    warnings: Vec<ScanWarning>,
    results: Vec<(ProjectInfo, Vec<ScanWarning>)>,
    sort: SortKey,
) -> (report: ScanReport)
    ensures
        report.scan_root == scan_root,
        stably_sorted(
            project_views(report.projects@),
            results@.map_values(|r: (ProjectInfo, Vec<ScanWarning>)| r.0@),
            sort,
        ),
        report.warnings@ == warnings@ + results@.map_values(
            |r: (ProjectInfo, Vec<ScanWarning>)| r.1@,
        ).flatten(),
        roots_distinct(results@.map_values(|r: (ProjectInfo, Vec<ScanWarning>)| r.0@))
            ==> roots_distinct(project_views(report.projects@)),
{
    let ghost input = results@;
    let n = results.len();
    let mut rest = results;
    let mut all_warnings = warnings;
    let mut projects: Vec<ProjectInfo> = Vec::with_capacity(n);
    let ghost start = all_warnings@;
    let mut i: usize = 0;
    while i < n
        invariant
            i <= n == input.len(),
            rest@ == input.skip(i as int),
            project_views(projects@) == input.take(i as int).map_values(
                |r: (ProjectInfo, Vec<ScanWarning>)| r.0@,
            ),
            all_warnings@ == start + input.take(i as int).map_values(
                |r: (ProjectInfo, Vec<ScanWarning>)| r.1@,
            ).flatten(),
        decreases n - i,
    {
        let item = rest.remove(0);
        assert(item == input[i as int]);
        assert(rest@ =~= input.skip(i + 1));
        let (project, mut project_warnings) = item;
        let ghost before = all_warnings@;
        all_warnings.append(&mut project_warnings);
        proof {
            let f = |r: (ProjectInfo, Vec<ScanWarning>)| r.1@;
            let taken = input.take(i + 1).map_values(f);
            assert(taken =~= input.take(i as int).map_values(f).push(input[i as int].1@));
            taken.drop_last().lemma_flatten_push(taken.last());
            assert(taken.drop_last() =~= input.take(i as int).map_values(f));
        }
        let ghost before_projects = project_views(projects@);
        projects.push(project);
        assert(project_views(projects@) =~= before_projects.push(input[i as int].0@));
        assert(project_views(projects@) =~= input.take(i + 1).map_values(
            |r: (ProjectInfo, Vec<ScanWarning>)| r.0@,
        ));
        i = i + 1;
    }
    assert(input.take(n as int) =~= input);
    let ghost unsorted = project_views(projects@);
    sort_projects(&mut projects, sort);
    proof {
        if roots_distinct(unsorted) {
            lemma_sorting_keeps_roots_distinct(project_views(projects@), unsorted, sort);
        }
    }
    ScanReport { scan_root, projects, warnings: all_warnings }
}

/// How a project's root is shown below the scan root, as
/// `Path::strip_prefix` leaves it: the bytes that follow the scan root's
/// components, with inner separators as written; the whole root when it
/// does not lie under the scan root; and `.` when nothing is left.
pub open spec fn display_relative(root: Seq<u8>, scan_root: Seq<u8>) -> Seq<u8> {
    let rel = if starts_with(root, scan_root) {
        rest_after_components(root, components(scan_root).len())
    } else {
        root
    };
    if rel.len() == 0 {
        seq![46u8]
    } else {
        rel
    }
}

impl ProjectInfo {
    /// The project's root as shown below `scan_root`.
    pub fn display_path(&self, scan_root: &Vec<u8>) -> (shown: Vec<u8>)
        ensures
            shown@ == display_relative(self.root@, scan_root@),
    {
        let mut rel: Vec<u8>;
        if path_starts_with(&self.root, scan_root) {
            let base = path_components(scan_root);
            proof {
                assert(views(base@).len() == base@.len());
            }
            rel = rest_after(&self.root, base.len());
        } else {
            rel = slice_bytes(&self.root, 0, self.root.len());
            assert(rel@ =~= self.root@);
        }
        if rel.len() == 0 {
            rel.push(46);
            assert(rel@ =~= seq![46u8]);
        }
        rel
    }
}

/// An injection of `0..n` into `0..n` reaches every position.
proof fn lemma_injection_is_onto(perm: Seq<int>, n: int, j: int)
    requires
        perm.len() == n,
        forall|k: int| 0 <= k < n ==> 0 <= #[trigger] perm[k] < n,
        forall|k: int, l: int| 0 <= k < l < n ==> #[trigger] perm[k] != #[trigger] perm[l],
        0 <= j < n,
    ensures
        exists|k: int| 0 <= k < n && perm[k] == j,
{
    broadcast use vstd::seq_lib::seq_to_set_is_finite;
    assert(perm.no_duplicates()) by {
        assert forall|a: int, b: int| 0 <= a < perm.len() && 0 <= b < perm.len() && a != b implies perm[a] != perm[b] by {
            if a < b {
                assert(perm[a] != perm[b]);
            } else {
                assert(perm[b] != perm[a]);
            }
        }
    }
    perm.unique_seq_to_set();
    vstd::set_lib::lemma_int_range(0, n);
    let range = vstd::set_lib::set_int_range(0, n);
    assert(perm.to_set().subset_of(range)) by {
        assert forall|v: int| perm.to_set().contains(v) implies range.contains(v) by {
            let k = choose|k: int| 0 <= k < perm.len() && perm[k] == v;
            assert(0 <= perm[k] < n);
        }
    }
    vstd::set_lib::lemma_subset_equality(perm.to_set(), range);
    assert(range.contains(j));
    assert(perm.to_set().contains(j));
}

/// In a stable arrangement every input position is used: the arrangement
/// is a permutation.
pub proof fn lemma_arrangement_is_onto(
    out: Seq<ProjectView>,
    input: Seq<ProjectView>,
    perm: Seq<int>,
    sort: SortKey,
    j: int,
)
    requires
        stable_arrangement(out, input, perm, sort),
        0 <= j < input.len(),
    ensures
        exists|k: int| 0 <= k < out.len() && perm[k] == j,
{
    lemma_injection_is_onto(perm, input.len() as int, j);
}

/// Sorting keeps every project: the sorted list has the same length and
/// holds each project of the input, and only those.
pub proof fn lemma_sorting_keeps_projects(out: Seq<ProjectView>, input: Seq<ProjectView>, sort: SortKey)
    requires
        stably_sorted(out, input, sort),
    ensures
        out.len() == input.len(),
        forall|j: int| 0 <= j < input.len() ==> out.contains(#[trigger] input[j]),
        forall|k: int| 0 <= k < out.len() ==> input.contains(#[trigger] out[k]),
{
    let perm = choose|perm: Seq<int>| stable_arrangement(out, input, perm, sort);
    assert forall|j: int| 0 <= j < input.len() implies out.contains(#[trigger] input[j]) by {
        lemma_arrangement_is_onto(out, input, perm, sort, j);
        let k = choose|k: int| 0 <= k < out.len() && perm[k] == j;
        assert(out[k] == input[j]);
    }
    assert forall|k: int| 0 <= k < out.len() implies input.contains(#[trigger] out[k]) by {
        assert(out[k] == input[perm[k]]);
    }
}

proof fn lemma_sorted_input_fixed_prefix(
    out: Seq<ProjectView>,
    input: Seq<ProjectView>,
    perm: Seq<int>,
    sort: SortKey,
    k: int,
)
    requires
        sorted_by(out, sort),
        sorted_by(input, sort),
        stable_arrangement(out, input, perm, sort),
        0 <= k <= out.len(),
    ensures
        forall|i: int| 0 <= i < k ==> perm[i] == i,
    decreases k,
{
    if k > 0 {
        lemma_sorted_input_fixed_prefix(out, input, perm, sort, k - 1);
        let i = k - 1;
        if perm[i] != i {
            // Positions below i are taken by the first i indices.
            assert forall|q: int| 0 <= q < i implies perm[q] != perm[i] by {
                assert(perm[q] == q);
            }
            if perm[i] < i {
                assert(perm[perm[i]] == perm[i]);
                assert(false);
            }
            lemma_arrangement_is_onto(out, input, perm, sort, i);
            let l = choose|l: int| 0 <= l < out.len() && perm[l] == i;
            if l < i {
                assert(perm[l] == l);
                assert(false);
            }
            assert(l > i);
            lemma_project_order_laws(input[i], input[perm[i]], input[i], sort);
            assert(project_order(input[i], input[perm[i]], sort) <= 0);
            assert(out[i] == input[perm[i]]);
            assert(out[l] == input[i]);
            assert(project_order(out[i], out[l], sort) <= 0);
            assert(project_order(out[i], out[l], sort) == 0);
            assert(perm[i] < perm[l]);
            assert(false);
        }
    }
}

/// Sorting a list that is already in order leaves it as it is.
pub proof fn lemma_sorting_sorted_is_identity(out: Seq<ProjectView>, input: Seq<ProjectView>, sort: SortKey)
    requires
        stably_sorted(out, input, sort),
        sorted_by(input, sort),
    ensures
        out == input,
{
    let perm = choose|perm: Seq<int>| stable_arrangement(out, input, perm, sort);
    lemma_sorted_input_fixed_prefix(out, input, perm, sort, out.len() as int);
    assert forall|i: int| 0 <= i < out.len() implies out[i] == input[i] by {
        assert(perm[i] == i);
    }
    assert(out =~= input);
}

/// Whether no two projects of `s` have roots with the same components.
pub open spec fn roots_distinct(s: Seq<ProjectView>) -> bool {
    forall|i: int, j: int|
        0 <= i < j < s.len() ==> components(#[trigger] s[i].root) != components(#[trigger] s[j].root)
}

/// `b` holds the projects of `a`, the one at `k` being `a[perm[k]]`, each
/// position of `a` used once.
pub open spec fn rearranges(b: Seq<ProjectView>, a: Seq<ProjectView>, perm: Seq<int>) -> bool {
    &&& perm.len() == b.len() == a.len()
    &&& forall|k: int| 0 <= k < b.len() ==> 0 <= #[trigger] perm[k] < a.len()
    &&& forall|k: int| 0 <= k < b.len() ==> b[k] == a[#[trigger] perm[k]]
    &&& forall|k: int, l: int| 0 <= k < l < b.len() ==> #[trigger] perm[k] != #[trigger] perm[l]
}

/// Whether `b` lists the projects of `a`, possibly in another order.
pub open spec fn same_projects(b: Seq<ProjectView>, a: Seq<ProjectView>) -> bool {
    exists|perm: Seq<int>| rearranges(b, a, perm)
}

proof fn lemma_rearranging_keeps_roots_distinct(b: Seq<ProjectView>, a: Seq<ProjectView>, perm: Seq<int>)
    requires
        rearranges(b, a, perm),
        roots_distinct(a),
    ensures
        roots_distinct(b),
{
    assert forall|i: int, j: int| 0 <= i < j < b.len() implies components(#[trigger] b[i].root)
        != components(#[trigger] b[j].root) by {
        assert(b[i] == a[perm[i]]);
        assert(b[j] == a[perm[j]]);
        if perm[i] < perm[j] {
            assert(components(a[perm[i]].root) != components(a[perm[j]].root));
        } else {
            assert(perm[i] != perm[j]);
            assert(components(a[perm[j]].root) != components(a[perm[i]].root));
        }
    }
}

/// Sorting keeps the roots of the projects pairwise different.
pub proof fn lemma_sorting_keeps_roots_distinct(out: Seq<ProjectView>, input: Seq<ProjectView>, sort: SortKey)
    requires
        stably_sorted(out, input, sort),
        roots_distinct(input),
    ensures
        roots_distinct(out),
{
    let perm = choose|perm: Seq<int>| stable_arrangement(out, input, perm, sort);
    assert(rearranges(out, input, perm));
    lemma_rearranging_keeps_roots_distinct(out, input, perm);
}

/// Projects with different roots never tie: the one with the smaller path
/// comes first.
proof fn lemma_distinct_roots_never_tie(a: ProjectView, b: ProjectView, sort: SortKey)
    requires
        components(a.root) != components(b.root),
    ensures
        project_order(a, b, sort) != 0,
{
    lemma_order_paths_laws(a.root, b.root, b.root);
}

/// Sorting two lists of the same projects with pairwise different roots,
/// whatever order each list had, gives the same list.
pub proof fn lemma_sorting_is_determined(
    out1: Seq<ProjectView>,
    in1: Seq<ProjectView>,
    out2: Seq<ProjectView>,
    in2: Seq<ProjectView>,
    sort: SortKey,
)
    requires
        stably_sorted(out1, in1, sort),
        stably_sorted(out2, in2, sort),
        same_projects(in2, in1),
        roots_distinct(in1),
    ensures
        out1 == out2,
{
    let p1 = choose|perm: Seq<int>| stable_arrangement(out1, in1, perm, sort);
    let p2 = choose|perm: Seq<int>| stable_arrangement(out2, in2, perm, sort);
    let q = choose|perm: Seq<int>| rearranges(in2, in1, perm);
    let n = in1.len() as int;
    assert(rearranges(out1, in1, p1));
    assert(rearranges(out2, in2, p2));
    lemma_rearranging_keeps_roots_distinct(in2, in1, q);
    lemma_rearranging_keeps_roots_distinct(out1, in1, p1);
    lemma_rearranging_keeps_roots_distinct(out2, in2, p2);
    lemma_rearranged_alike(out1, in1, p1, out2, in2, p2, q);
    assert(ordered(out1, sort)) by {
        reveal(ordered);
    }
    assert(ordered(out2, sort)) by {
        reveal(ordered);
    }
    assert forall|k: int| 0 <= k < n implies out1[k] == out2[k] by {
        lemma_sorted_lists_agree(out1, out2, sort, k);
    }
    assert(out1 =~= out2);
}

/// Lists that both rearrange `in1` (the second through `in2`) hold each
/// other's projects.
proof fn lemma_rearranged_alike(
    out1: Seq<ProjectView>,
    in1: Seq<ProjectView>,
    p1: Seq<int>,
    out2: Seq<ProjectView>,
    in2: Seq<ProjectView>,
    p2: Seq<int>,
    q: Seq<int>,
)
    requires
        rearranges(out1, in1, p1),
        rearranges(out2, in2, p2),
        rearranges(in2, in1, q),
    ensures
        all_within(out1, out2),
        all_within(out2, out1),
{
    let n = in1.len() as int;
    assert forall|k: int| 0 <= k < out1.len() implies #[trigger] occurs_in(out1[k], out2) by {
        let i = p1[k];
        lemma_injection_is_onto(q, n, i);
        let m = choose|m: int| 0 <= m < n && q[m] == i;
        lemma_injection_is_onto(p2, n, m);
        let j = choose|j: int| 0 <= j < n && p2[j] == m;
        assert(out1[k] == in1[p1[k]]);
        assert(out2[j] == in2[p2[j]]);
        assert(in2[m] == in1[q[m]]);
        assert(out1[k] == out2[j]);
    }
    assert forall|k: int| 0 <= k < out2.len() implies #[trigger] occurs_in(out2[k], out1) by {
        let m = p2[k];
        let i = q[m];
        lemma_injection_is_onto(p1, n, i);
        let l = choose|l: int| 0 <= l < n && p1[l] == i;
        assert(out1[l] == in1[p1[l]]);
        assert(out2[k] == in2[p2[k]]);
        assert(in2[m] == in1[q[m]]);
        assert(out2[k] == out1[l]);
    }
}

/// `sorted_by`, kept folded inside the proofs below.
#[verifier::opaque]
spec fn ordered(s: Seq<ProjectView>, sort: SortKey) -> bool {
    forall|i: int, j: int| 0 <= i < j < s.len() ==> project_order(s[i], s[j], sort) <= 0
}

proof fn lemma_ordered_at(s: Seq<ProjectView>, sort: SortKey, i: int, j: int)
    requires
        ordered(s, sort),
        0 <= i < j < s.len(),
    ensures
        project_order(s[i], s[j], sort) <= 0,
{
    reveal(ordered);
}

/// Whether `x` stands somewhere in `b`.
pub open spec fn occurs_in(x: ProjectView, b: Seq<ProjectView>) -> bool {
    exists|j: int| 0 <= j < b.len() && b[j] == x
}

/// Whether each project of `a` is somewhere in `b`.
pub open spec fn all_within(a: Seq<ProjectView>, b: Seq<ProjectView>) -> bool {
    forall|x: int| 0 <= x < a.len() ==> #[trigger] occurs_in(a[x], b)
}

/// One step of `lemma_sorted_lists_agree`: where the lists agree below
/// `k`, and each holds the other's project at `k` no earlier than `k`, they
/// agree at `k`.
proof fn lemma_sorted_lists_agree_at(
    out1: Seq<ProjectView>,
    out2: Seq<ProjectView>,
    sort: SortKey,
    k: int,
    i: int,
    j: int,
)
    requires
        out1.len() == out2.len(),
        0 <= k < out1.len(),
        0 <= i < out1.len(),
        0 <= j < out1.len(),
        out1[k] == out2[j],
        out2[k] == out1[i],
        forall|x: int| 0 <= x < k ==> out1[x] == out2[x],
        roots_distinct(out1),
        roots_distinct(out2),
        k <= j ==> project_order(out2[k], out2[j], sort) <= 0,
        k <= i ==> project_order(out1[k], out1[i], sort) <= 0,
    ensures
        out1[k] == out2[k],
{
    if j < k {
        assert(out1[j] == out2[j]);
        assert(components(out1[j].root) != components(out1[k].root));
    } else if i < k {
        assert(out1[i] == out2[i]);
        assert(components(out2[i].root) != components(out2[k].root));
    } else if j > k {
        lemma_distinct_roots_never_tie(out2[k], out2[j], sort);
        if i == k {
            assert(components(out2[k].root) != components(out2[j].root));
        } else {
            lemma_project_order_laws(out1[k], out1[i], out1[k], sort);
        }
    }
}

/// Two sorted lists of the same projects, roots pairwise different, agree
/// up to and including position `k`.
proof fn lemma_sorted_lists_agree(out1: Seq<ProjectView>, out2: Seq<ProjectView>, sort: SortKey, k: int)
    requires
        out1.len() == out2.len(),
        ordered(out1, sort),
        ordered(out2, sort),
        roots_distinct(out1),
        roots_distinct(out2),
        all_within(out1, out2),
        all_within(out2, out1),
        0 <= k < out1.len(),
    ensures
        forall|x: int| 0 <= x <= k ==> out1[x] == out2[x],
    decreases k,
{
    if k > 0 {
        lemma_sorted_lists_agree(out1, out2, sort, k - 1);
    }
    let n = out1.len() as int;
    assert(occurs_in(out1[k], out2));
    assert(occurs_in(out2[k], out1));
    let j = choose|j: int| 0 <= j < n && out2[j] == out1[k];
    let i = choose|i: int| 0 <= i < n && out1[i] == out2[k];
    if k < j {
        lemma_ordered_at(out2, sort, k, j);
    }
    if k < i {
        lemma_ordered_at(out1, sort, k, i);
    }
    lemma_project_order_laws(out1[k], out1[k], out1[k], sort);
    lemma_project_order_laws(out2[k], out2[k], out2[k], sort);
    lemma_sorted_lists_agree_at(out1, out2, sort, k, i, j);
}

/// A search for a root finds one when some project at or after `from` has it.
pub proof fn lemma_first_with_root_found(ps: Seq<ProjectView>, root: Seq<u8>, from: int, k: int)
    requires
        0 <= from <= k < ps.len(),
        components(ps[k].root) == components(root),
    ensures
        first_with_root(ps, root, from) is Some,
    decreases k - from,
{
    if components(ps[from].root) != components(root) {
        lemma_first_with_root_found(ps, root, from + 1, k);
    }
}

/// The scan root itself is shown as `.`.
pub proof fn lemma_scan_root_shows_as_dot(root: Seq<u8>)
    ensures
        display_relative(root, root) == seq![46u8],
{
    lemma_nothing_after_all_components(root);
    assert(starts_with(root, root)) by {
        assert(components(root).take(components(root).len() as int) =~= components(root));
    }
}

proof fn lemma_kept_indices_ordered(roots: Seq<Seq<u8>>, n: int)
    requires
        n <= roots.len(),
    ensures
        forall|k: int| 0 <= k < kept_indices(roots, n).len() ==> 0 <= #[trigger] kept_indices(roots, n)[k] < n,
        forall|k: int, l: int|
            0 <= k < l < kept_indices(roots, n).len() ==> #[trigger] kept_indices(roots, n)[k] < #[trigger] kept_indices(
                roots,
                n,
            )[l],
        forall|k: int|
            0 <= k < kept_indices(roots, n).len() ==> first_of_its_root(roots, #[trigger] kept_indices(roots, n)[k]),
    decreases n,
{
    if n > 0 {
        lemma_kept_indices_ordered(roots, n - 1);
        let prev = kept_indices(roots, n - 1);
        let cur = kept_indices(roots, n);
        if first_of_its_root(roots, n - 1) {
            assert(cur == prev.push(n - 1));
            assert forall|k: int| 0 <= k < cur.len() implies 0 <= #[trigger] cur[k] < n && first_of_its_root(roots, cur[k]) by {
                if k < prev.len() {
                    assert(cur[k] == prev[k]);
                }
            }
            assert forall|k: int, l: int| 0 <= k < l < cur.len() implies #[trigger] cur[k] < #[trigger] cur[l] by {
                assert(cur[k] == prev[k]);
                if l < prev.len() {
                    assert(cur[l] == prev[l]);
                }
            }
        } else {
            assert(cur == prev);
        }
    }
}

/// The candidates kept by discovery have pairwise different roots.
pub proof fn lemma_kept_roots_distinct(roots: Seq<Seq<u8>>, k: int, l: int)
    requires
        0 <= k < l < kept_indices(roots, roots.len() as int).len(),
    ensures
        components(roots[kept_indices(roots, roots.len() as int)[k]]) != components(
            roots[kept_indices(roots, roots.len() as int)[l]],
        ),
{
    let n = roots.len() as int;
    lemma_kept_indices_ordered(roots, n);
    let i = kept_indices(roots, n)[k];
    let j = kept_indices(roots, n)[l];
    assert(i < j);
    assert(first_of_its_root(roots, j));
    assert(components(roots[i]) != components(roots[j]));
}

/// Where a scan starts, given what the path is.
#[derive(Clone, Copy, Debug, PartialEq, Eq, Structural)]
pub enum ScanStart {
    /// Scan the directory itself.
    Directory,
    /// The path is a `Cargo.toml`: scan the directory that holds it.
    ManifestDirectory,
}

/// The decision on a scan path: a missing path, a file other than
/// `Cargo.toml` and anything that is not a directory are refused, each with
/// its message.
pub open spec fn scan_start(exists: bool, is_file: bool, is_dir: bool, file_name: Option<Seq<char>>) -> Result<ScanStart, Seq<char>> {
    if !exists {
        Err("path does not exist"@)
    } else if is_file {
        if file_name == Some("Cargo.toml"@) {
            Ok(ScanStart::ManifestDirectory)
        } else {
            Err("path is a file; pass a directory or a Cargo.toml"@)
        }
    } else if !is_dir {
        Err("path is not a directory"@)
    } else {
        Ok(ScanStart::Directory)
    }
}

/// Decides how to treat the scan path from what the filesystem says of it;
/// `file_name` is its file name when that is valid UTF-8.
pub fn scan_root_start(exists: bool, is_file: bool, is_dir: bool, file_name: Option<&str>) -> (r: Result<ScanStart, String>)
    ensures
        match (r, scan_start(exists, is_file, is_dir, match file_name { Some(n) => Some(n@), None => None })) {
            (Ok(a), Ok(b)) => a == b,
            (Err(m), Err(t)) => m@ == t,
            _ => false,
        },
{
    if !exists {
        return Err("path does not exist".to_owned());
    }
    if is_file {
        let is_manifest = match file_name {
            Some(n) => name_is(n, "Cargo.toml"),
            None => false,
        };
        if is_manifest {
            return Ok(ScanStart::ManifestDirectory);
        }
        return Err("path is a file; pass a directory or a Cargo.toml".to_owned());
    }
    if !is_dir {
        return Err("path is not a directory".to_owned());
    }
    Ok(ScanStart::Directory)
}

/// The size order ranks by `target/` size, larger first; then by total
/// size, larger first; then by modification time, newer first; and only
/// then by path. The modification order ranks by modification time,
/// newer first; then by `target/` size, larger first; then by path.
pub proof fn lemma_order_ranks(a: ProjectView, b: ProjectView)
    ensures
        a.target_size > b.target_size ==> project_order(a, b, SortKey::Size) == -1,
        a.target_size == b.target_size && a.total_size > b.total_size ==> project_order(
            a,
            b,
            SortKey::Size,
        ) == -1,
        a.target_size == b.target_size && a.total_size == b.total_size && a.last_modified
            > b.last_modified ==> project_order(a, b, SortKey::Size) == -1,
        a.target_size == b.target_size && a.total_size == b.total_size && a.last_modified
            == b.last_modified ==> (project_order(a, b, SortKey::Size) == 0 <==> components(a.root)
            == components(b.root)),
        a.last_modified > b.last_modified ==> project_order(a, b, SortKey::Modified) == -1,
        a.last_modified == b.last_modified && a.target_size > b.target_size ==> project_order(
            a,
            b,
            SortKey::Modified,
        ) == -1,
        a.last_modified == b.last_modified && a.target_size == b.target_size ==> (project_order(
            a,
            b,
            SortKey::Modified,
        ) == 0 <==> components(a.root) == components(b.root)),
{
    lemma_order_paths_laws(a.root, b.root, b.root);
}

/// In a list sorted by size, an earlier project never has a smaller
/// `target/`; among equal `target/` sizes never a smaller total; among
/// equal both never an older time. In a list sorted by modification, an
/// earlier project is never older, and among equal times never has a
/// smaller `target/`.
pub proof fn lemma_sorted_ranks(s: Seq<ProjectView>, sort: SortKey, i: int, j: int)
    requires
        sorted_by(s, sort),
        0 <= i < j < s.len(),
    ensures
        sort == SortKey::Size ==> s[i].target_size >= s[j].target_size,
        sort == SortKey::Size && s[i].target_size == s[j].target_size ==> s[i].total_size
            >= s[j].total_size,
        sort == SortKey::Size && s[i].target_size == s[j].target_size && s[i].total_size
            == s[j].total_size ==> s[i].last_modified >= s[j].last_modified,
        sort == SortKey::Modified ==> s[i].last_modified >= s[j].last_modified,
        sort == SortKey::Modified && s[i].last_modified == s[j].last_modified ==> s[i].target_size
            >= s[j].target_size,
{
    lemma_order_ranks(s[j], s[i]);
    lemma_project_order_laws(s[i], s[j], s[i], sort);
    assert(project_order(s[i], s[j], sort) <= 0);
}

/// A manifest with a `package` or a `workspace` table among its top-level
/// entries, at any position, is a Rust project.
pub proof fn lemma_project_table_anywhere(entries: Seq<(Seq<char>, bool)>, k: int)
    requires
        0 <= k < entries.len(),
        entries[k] == ("package"@, true) || entries[k] == ("workspace"@, true),
    ensures
        has_project_table(entries),
{
    assert(entries.contains(entries[k]));
}

/// Entries other than a `package` or `workspace` table change nothing,
/// wherever they stand; with no entries there is no project.
pub proof fn lemma_other_entries_do_not_count(entries: Seq<(Seq<char>, bool)>, other: (Seq<char>, bool))
    requires
        other != ("package"@, true),
        other != ("workspace"@, true),
    ensures
        has_project_table(entries.push(other)) == has_project_table(entries),
        has_project_table(seq![other] + entries) == has_project_table(entries),
        !has_project_table(seq![]),
{
    let back = entries.push(other);
    let front = seq![other] + entries;
    let n = entries.len() as int;
    let pk = ("package"@, true);
    let wk = ("workspace"@, true);
    assert forall|x: (Seq<char>, bool)| x == pk || x == wk implies (back.contains(x) == entries.contains(x)
        && front.contains(x) == entries.contains(x)) by {
        if entries.contains(x) {
            let i = choose|i: int| 0 <= i < n && entries[i] == x;
            assert(back[i] == x);
            assert(front[i + 1] == x);
        }
        if back.contains(x) {
            let i = choose|i: int| 0 <= i < back.len() && back[i] == x;
            assert(i < n);
            assert(entries[i] == x);
        }
        if front.contains(x) {
            let i = choose|i: int| 0 <= i < front.len() && front[i] == x;
            assert(i > 0);
            assert(entries[i - 1] == x);
        }
    }
    assert(back.contains(pk) == entries.contains(pk));
    assert(back.contains(wk) == entries.contains(wk));
    assert(front.contains(pk) == entries.contains(pk));
    assert(front.contains(wk) == entries.contains(wk));
}

/// A manifest text that parses into entries holding a `package` or a
/// `workspace` table is a Rust project.
pub proof fn lemma_manifest_with_project_table(text: Seq<char>, k: int)
    requires
        toml_top_level_entries(text) is Some,
        0 <= k < toml_top_level_entries(text)->0.len(),
        toml_top_level_entries(text)->0[k] == ("package"@, true) || toml_top_level_entries(text)->0[k]
            == ("workspace"@, true),
    ensures
        rust_manifest(text) == Ok::<bool, ManifestError>(true),
{
    lemma_project_table_anywhere(toml_top_level_entries(text)->0, k);
}

} // verus!
