//! Running `cargo clean` over a plan of projects: what is cleaned, what is
//! skipped because cargo is busy in the same tree, and how outcomes are
//! reported and counted.

use vstd::prelude::*;
use vstd::utf8::*;
use crate::format::{bytes_text, format_bytes};
use crate::paths::{
    components, is_absolute, is_absolute_path, join_relative, joined, parent_path, path_parent,
    path_starts_with, slice_bytes, starts_with,
};
use crate::scan::{project_views, ProjectInfo, ProjectView};
use crate::text::{
    chars_to_string, decimal, first_line, first_line_chars, lossy_text, push_chars, push_decimal,
    push_str, slice_chars, str_chars, trim, trim_chars, utf8_lossy,
};

verus! {

/// The projects of a plan chosen from `ps` by the flags in `sel`, in order;
/// the shorter of the two lists bounds the choice.
pub open spec fn chosen(ps: Seq<ProjectView>, sel: Seq<bool>, n: int) -> Seq<ProjectView>
    decreases n,
{
    if n <= 0 {
        seq![]
    } else if sel[n - 1] {
        chosen(ps, sel, n - 1).push(ps[n - 1])
    } else {
        chosen(ps, sel, n - 1)
    }
}

pub open spec fn min_len(a: nat, b: nat) -> int {
    if a < b {
        a as int
    } else {
        b as int
    }
}

/// The projects to clean, in order.
#[derive(Clone, Debug)]
pub struct CleanPlan {
    pub projects: Vec<ProjectInfo>,
}

impl CleanPlan {
    /// A plan that cleans every project.
    pub fn all(projects: Vec<ProjectInfo>) -> (plan: CleanPlan)
        ensures
            plan.projects == projects,
    {
        CleanPlan { projects }
    }

    /// A plan that cleans the projects whose flag is set.
    pub fn selected(projects: &Vec<ProjectInfo>, selected: &Vec<bool>) -> (plan: CleanPlan)
        ensures
            project_views(plan.projects@) == chosen(
                project_views(projects@),
                selected@,
                min_len(projects.len() as nat, selected.len() as nat),
            ),
    {
        let ghost ps = project_views(projects@);
        let n = if projects.len() < selected.len() {
            projects.len()
        } else {
            selected.len()
        };
        let mut chosen_projects: Vec<ProjectInfo> = Vec::new();
        let mut i: usize = 0;
        while i < n
            invariant
                i <= n <= projects.len(),
                n <= selected.len(),
                ps == project_views(projects@),
                project_views(chosen_projects@) == chosen(ps, selected@, i as int),
            decreases n - i,
        {
            if selected[i] {
                let ghost before = project_views(chosen_projects@);
                chosen_projects.push(projects[i].duplicate());
                assert(project_views(chosen_projects@) =~= before.push(ps[i as int]));
            }
            i = i + 1;
        }
        CleanPlan { projects: chosen_projects }
    }
}

/// How a clean went, project by project.
#[derive(Clone, Copy, Debug, PartialEq, Eq, Structural)]
pub struct CleanSummary {
    pub cleaned: usize,
    pub failed: usize,
    pub skipped: usize,
}

impl Default for CleanSummary {
    fn default() -> (summary: CleanSummary)
        ensures
            summary.cleaned == 0,
            summary.failed == 0,
            summary.skipped == 0,
    {
        CleanSummary { cleaned: 0, failed: 0, skipped: 0 }
    }
}

/// What happened to one project of a plan.
#[derive(Clone, Debug)]
pub enum CleanEvent {
    /// Cleaning of the `index`-th of `total` projects began.
    Started { index: usize, total: usize, project: ProjectInfo },
    /// `cargo clean` succeeded.
    Cleaned { project: ProjectInfo, reclaimed: u64 },
    /// The project was left alone.
    Skipped { project: ProjectInfo, message: String },
    /// `cargo clean` could not run or failed.
    Failed { project: ProjectInfo, message: String },
}

/// The line that reports an event.
pub open spec fn event_text(event: CleanEvent) -> Seq<char> {
    match event {
        CleanEvent::Started { index, total, project } => seq!['['] + decimal(index as nat) + seq!['/']
            + decimal(total as nat) + "] cleaning "@ + utf8_lossy(project.root@) + " ("@
            + bytes_text(project.target_size) + seq![')'],
        CleanEvent::Cleaned { project, reclaimed } => "cleaned "@ + utf8_lossy(project.root@)
            + " (about "@ + bytes_text(reclaimed) + " reclaimable)"@,
        CleanEvent::Skipped { project, message } => "skipped "@ + utf8_lossy(project.root@) + ": "@
            + message@,
        CleanEvent::Failed { project, message } => "failed "@ + utf8_lossy(project.root@) + ": "@
            + message@,
    }
}

impl CleanEvent {
    /// The line that reports this event.
    pub fn describe(&self) -> (text: String)
        ensures
            text@ == event_text(*self),
    {
        let mut out: Vec<char> = Vec::new();
        match self {
            CleanEvent::Started { index, total, project } => {
                out.push('[');
                push_decimal(&mut out, *index as u128);
                out.push('/');
                push_decimal(&mut out, *total as u128);
                push_str(&mut out, "] cleaning ");
                push_str(&mut out, lossy_text(project.root.as_slice()).as_str());
                push_str(&mut out, " (");
                push_str(&mut out, format_bytes(project.target_size).as_str());
                out.push(')');
            },
            CleanEvent::Cleaned { project, reclaimed } => {
                push_str(&mut out, "cleaned ");
                push_str(&mut out, lossy_text(project.root.as_slice()).as_str());
                push_str(&mut out, " (about ");
                push_str(&mut out, format_bytes(*reclaimed).as_str());
                push_str(&mut out, " reclaimable)");
            },
            CleanEvent::Skipped { project, message } => {
                push_str(&mut out, "skipped ");
                push_str(&mut out, lossy_text(project.root.as_slice()).as_str());
                push_str(&mut out, ": ");
                push_str(&mut out, message.as_str());
            },
            CleanEvent::Failed { project, message } => {
                push_str(&mut out, "failed ");
                push_str(&mut out, lossy_text(project.root.as_slice()).as_str());
                push_str(&mut out, ": ");
                push_str(&mut out, message.as_str());
            },
        }
        chars_to_string(&out)
    }
}

/// The longest message shown whole.
pub open spec fn message_limit() -> nat {
    180
}

/// A message cut down to its first line, trimmed, and shortened to at most
/// 180 characters (179 and a `.`).
pub open spec fn compacted(message: Seq<char>) -> Seq<char> {
    let line = trim(first_line(message));
    if line.len() <= message_limit() {
        line
    } else {
        line.take(179).push('.')
    }
}

/// The first line of `message`, trimmed and shortened to 180 characters.
pub fn compact_message(message: &str) -> (text: String)
    ensures
        text@ == compacted(message@),
{
    let chars = str_chars(message);
    let line = first_line_chars(&chars);
    let line = trim_chars(&line);
    if line.len() <= 180 {
        chars_to_string(&line)
    } else {
        let mut short = slice_chars(&line, 0, 179);
        short.push('.');
        chars_to_string(&short)
    }
}

/// What a failed `cargo clean` is reported with: its error output, else its
/// standard output, each compacted, else a fixed line.
pub open spec fn failure_text(stderr: Seq<u8>, stdout: Seq<u8>) -> Seq<char> {
    let err = trim(utf8_lossy(stderr));
    let out = trim(utf8_lossy(stdout));
    if err.len() > 0 {
        compacted(err)
    } else if out.len() > 0 {
        compacted(out)
    } else {
        "cargo clean exited with a non-zero status"@
    }
}

/// The message for a `cargo clean` that exited unsuccessfully.
pub fn command_failure_message(stderr: &[u8], stdout: &[u8]) -> (text: String)
    ensures
        text@ == failure_text(stderr@, stdout@),
{
    let err_text = lossy_text(stderr);
    let err = trim_chars(&str_chars(err_text.as_str()));
    if err.len() > 0 {
        return compact_message(chars_to_string(&err).as_str());
    }
    let out_text = lossy_text(stdout);
    let out = trim_chars(&str_chars(out_text.as_str()));
    if out.len() > 0 {
        return compact_message(chars_to_string(&out).as_str());
    }
    "cargo clean exited with a non-zero status".to_owned()
}

/// Why a project is skipped.
pub open spec fn busy_message() -> Seq<char> {
    "cargo is already running in this project tree"@
}

/// Whether one of two paths lies inside the other (or they are the same),
/// going by whole components.
pub open spec fn share_tree(left: Seq<u8>, right: Seq<u8>) -> bool {
    starts_with(left, right) || starts_with(right, left)
}

/// Whether `left` and `right` are the same directory or one contains the other.
pub fn paths_share_project_tree(left: &Vec<u8>, right: &Vec<u8>) -> (r: bool)
    ensures
        r == share_tree(left@, right@),
{
    path_starts_with(left, right) || path_starts_with(right, left)
}

/// Whether cargo runs somewhere in the tree of `root`, given the directories
/// (scope roots) of the cargo processes that run.
pub open spec fn busy_tree(scope_roots: Seq<Seq<u8>>, root: Seq<u8>) -> bool {
    exists|i: int| 0 <= i < scope_roots.len() && share_tree(#[trigger] scope_roots[i], root)
}

/// Whether a cargo process works in the project's tree.
pub fn project_has_active_cargo(scope_roots: &Vec<Vec<u8>>, project: &ProjectInfo) -> (busy: bool)
    ensures
        busy == busy_tree(scope_roots@.map_values(|r: Vec<u8>| r@), project.root@),
{
    let ghost roots = scope_roots@.map_values(|r: Vec<u8>| r@);
    let mut i: usize = 0;
    while i < scope_roots.len()
        invariant
            i <= scope_roots.len(),
            roots == scope_roots@.map_values(|r: Vec<u8>| r@),
            forall|k: int| 0 <= k < i ==> !share_tree(#[trigger] roots[k], project.root@),
        decreases scope_roots.len() - i,
    {
        assert(roots[i as int] == scope_roots@[i as int]@);
        if paths_share_project_tree(&scope_roots[i], &project.root) {
            return true;
        }
        i = i + 1;
    }
    false
}

/// `c` with ASCII capitals made small.
pub open spec fn ascii_lower(c: char) -> char {
    if 'A' <= c <= 'Z' {
        ((c as u32) + 32) as char
    } else {
        c
    }
}

/// Whether `a` and `b` are equal up to ASCII case.
pub open spec fn eq_ignore_ascii_case(a: Seq<char>, b: Seq<char>) -> bool {
    a.len() == b.len() && forall|i: int| 0 <= i < a.len() ==> ascii_lower(a[i]) == ascii_lower(b[i])
}

fn lower(c: char) -> (r: char)
    ensures
        r == ascii_lower(c),
{
    if 'A' <= c && c <= 'Z' {
        let v = (c as u32) + 32;
        let b = v as u8;
        b as char
    } else {
        c
    }
}

fn chars_eq_ignore_ascii_case(a: &Vec<char>, b: &Vec<char>) -> (r: bool)
    ensures
        r == eq_ignore_ascii_case(a@, b@),
{
    if a.len() != b.len() {
        return false;
    }
    let mut i: usize = 0;
    while i < a.len()
        invariant
            i <= a.len() == b.len(),
            forall|k: int| 0 <= k < i ==> ascii_lower(a@[k]) == ascii_lower(b@[k]),
        decreases a.len() - i,
    {
        if lower(a[i]) != lower(b[i]) {
            return false;
        }
        i = i + 1;
    }
    true
}

/// Whether a process name (read as UTF-8, invalid bytes replaced) is
/// `cargo` or `cargo.exe`, in any ASCII case.
pub open spec fn names_cargo(name: Seq<u8>) -> bool {
    eq_ignore_ascii_case(utf8_lossy(name), "cargo"@) || eq_ignore_ascii_case(
        utf8_lossy(name),
        "cargo.exe"@,
    )
}

pub fn process_name_is_cargo(name: &[u8]) -> (r: bool)
    ensures
        r == names_cargo(name@),
{
    let text = str_chars(lossy_text(name).as_str());
    chars_eq_ignore_ascii_case(&text, &str_chars("cargo")) || chars_eq_ignore_ascii_case(
        &text,
        &str_chars("cargo.exe"),
    )
}

/// What the process table says about one process.
pub struct ProcessInfo {
    /// The process name.
    pub name: Vec<u8>,
    /// The file name of its executable, when known.
    pub exe_file_name: Option<Vec<u8>>,
    /// Its working directory, when known.
    pub cwd: Option<Vec<u8>>,
    /// Its command line.
    pub command: Vec<Vec<u8>>,
}

/// Whether the process is cargo, by its name or its executable's file name.
pub fn is_cargo_process(process: &ProcessInfo) -> (r: bool)
    ensures
        r == (names_cargo(process.name@) || (process.exe_file_name matches Some(f) && names_cargo(
            f@,
        ))),
{
    if process_name_is_cargo(process.name.as_slice()) {
        return true;
    }
    match &process.exe_file_name {
        Some(f) => process_name_is_cargo(f.as_slice()),
        None => false,
    }
}

/// The manifest path that a cargo command line names, looking at the
/// arguments from index `i` on: the argument after the first
/// `--manifest-path`, or what follows `--manifest-path=` in an argument
/// read as UTF-8 with replacement characters. A `--manifest-path` without
/// a following argument names none.
pub open spec fn manifest_argument(command: Seq<Seq<u8>>, i: int) -> Option<Seq<u8>>
    decreases command.len() - i,
{
    if i < 0 || i >= command.len() {
        None
    } else if command[i] == encode_utf8("--manifest-path"@) {
        if i + 1 < command.len() {
            Some(command[i + 1])
        } else {
            None
        }
    } else if utf8_lossy(command[i]).len() >= 16 && utf8_lossy(command[i]).take(16)
        == "--manifest-path="@ {
        Some(encode_utf8(utf8_lossy(command[i]).skip(16)))
    } else {
        manifest_argument(command, i + 1)
    }
}

fn bytes_of(s: &str) -> (r: Vec<u8>)
    ensures
        r@ == encode_utf8(s@),
{
    let b = s.as_bytes();
    let mut r: Vec<u8> = Vec::new();
    let mut i: usize = 0;
    while i < b.len()
        invariant
            i <= b.len(),
            b@ == encode_utf8(s@),
            r@ == b@.take(i as int),
        decreases b.len() - i,
    {
        r.push(b[i]);
        i = i + 1;
        assert(b@.take(i as int) =~= b@.take(i - 1).push(b@[i - 1]));
    }
    assert(b@.take(b.len() as int) =~= b@);
    r
}

fn same_bytes(a: &Vec<u8>, b: &Vec<u8>) -> (r: bool)
    ensures
        r == (a@ == b@),
{
    if a.len() != b.len() {
        return false;
    }
    let mut i: usize = 0;
    while i < a.len()
        invariant
            i <= a.len() == b.len(),
            forall|k: int| 0 <= k < i ==> a@[k] == b@[k],
        decreases a.len() - i,
    {
        if a[i] != b[i] {
            return false;
        }
        i = i + 1;
    }
    assert(a@ =~= b@);
    true
}

/// The manifest path named on a cargo command line (the program name,
/// at index 0, is not looked at).
pub fn manifest_path_argument(command: &Vec<Vec<u8>>) -> (path: Option<Vec<u8>>)
    ensures
        path matches Some(p) ==> manifest_argument(command@.map_values(|a: Vec<u8>| a@), 1) == Some(p@),
        path is None ==> manifest_argument(command@.map_values(|a: Vec<u8>| a@), 1) is None,
{
    let ghost args = command@.map_values(|a: Vec<u8>| a@);
    let flag = bytes_of("--manifest-path");
    let prefix = str_chars("--manifest-path=");
    proof {
        reveal_strlit("--manifest-path=");
    }
    let mut i: usize = 1;
    while i < command.len()
        invariant
            1 <= i,
            i <= command.len() || command.len() == 0,
            args == command@.map_values(|a: Vec<u8>| a@),
            flag@ == encode_utf8("--manifest-path"@),
            prefix@ == "--manifest-path="@,
            prefix.len() == 16,
            manifest_argument(args, 1) == manifest_argument(args, i as int),
        decreases command.len() - i,
    {
        assert(args[i as int] == command@[i as int]@);
        if same_bytes(&command[i], &flag) {
            if i + 1 < command.len() {
                assert(args[i + 1] == command@[i + 1]@);
                let p = slice_bytes(&command[i + 1], 0, command[i + 1].len());
                assert(p@ =~= command@[i + 1]@);
                return Some(p);
            }
            return None;
        }
        let text = str_chars(lossy_text(command[i].as_slice()).as_str());
        if text.len() >= 16 {
            let head = slice_chars(&text, 0, 16);
            let mut equal = true;
            let mut k: usize = 0;
            while k < 16
                invariant
                    k <= 16,
                    head.len() == 16,
                    prefix.len() == 16,
                    equal == (forall|q: int| 0 <= q < k ==> head@[q] == prefix@[q]),
                decreases 16 - k,
            {
                if head[k] != prefix[k] {
                    equal = false;
                }
                k = k + 1;
            }
            if equal {
                assert(head@ =~= prefix@);
                let rest = slice_chars(&text, 16, text.len());
                assert(rest@ =~= text@.skip(16));
                let rest_text = chars_to_string(&rest);
                return Some(bytes_of(rest_text.as_str()));
            }
            assert(head@ != prefix@);
        }
        i = i + 1;
    }
    None
}

/// Where a manifest named on a command line lies: the path itself when it
/// is absolute, else the path joined to the process's working directory;
/// unknown when it is relative and the working directory is unknown.
pub open spec fn manifest_location(manifest: Seq<u8>, cwd: Option<Seq<u8>>) -> Option<Seq<u8>> {
    if is_absolute_path(manifest) {
        Some(manifest)
    } else {
        match cwd {
            Some(dir) => Some(joined(dir, manifest)),
            None => None,
        }
    }
}

/// The bytes of a working directory, when it is known.
pub open spec fn known_dir(cwd: Option<&Vec<u8>>) -> Option<Seq<u8>> {
    match cwd {
        Some(d) => Some(d@),
        None => None,
    }
}

/// Where the manifest `manifest` lies for a process working in `cwd`.
pub fn resolve_manifest_path(manifest: &Vec<u8>, cwd: Option<&Vec<u8>>) -> (r: Option<Vec<u8>>)
    ensures
        match r {
            Some(path) => manifest_location(manifest@, known_dir(cwd)) == Some(path@),
            None => manifest_location(manifest@, known_dir(cwd)) is None,
        },
{
    if is_absolute(manifest) {
        let path = slice_bytes(manifest, 0, manifest.len());
        assert(path@ =~= manifest@);
        Some(path)
    } else {
        match cwd {
            Some(dir) => Some(join_relative(dir, manifest)),
            None => None,
        }
    }
}

/// The directory a resolved manifest path stands for: the path itself when
/// it is a directory, otherwise its parent.
pub open spec fn scope_directory(resolved: Seq<u8>, is_dir: bool) -> Option<Seq<u8>> {
    if is_dir {
        Some(resolved)
    } else {
        parent_path(resolved)
    }
}

/// The directory the resolved manifest path `resolved` stands for, given
/// whether it is a directory.
pub fn manifest_scope_directory(resolved: Vec<u8>, is_dir: bool) -> (r: Option<Vec<u8>>)
    ensures
        match r {
            Some(dir) => scope_directory(resolved@, is_dir) == Some(dir@),
            None => scope_directory(resolved@, is_dir) is None,
        },
{
    if is_dir {
        Some(resolved)
    } else {
        path_parent(&resolved)
    }
}

/// A command to run: the program, its arguments and the directory it runs in.
pub struct CleanCommand {
    pub program: String,
    pub args: Vec<Vec<u8>>,
    pub dir: Vec<u8>,
}

/// The command that cleans `project`: `cargo clean --manifest-path` with
/// the project's manifest, run in the project's root.
pub fn clean_command(project: &ProjectInfo) -> (c: CleanCommand)
    ensures
        c.program@ == "cargo"@,
        c.args@.map_values(|a: Vec<u8>| a@) == seq![
            encode_utf8("clean"@),
            encode_utf8("--manifest-path"@),
            project.manifest_path@,
        ],
        c.dir@ == project.root@,
{
    let mut args: Vec<Vec<u8>> = Vec::new();
    args.push(bytes_of("clean"));
    args.push(bytes_of("--manifest-path"));
    args.push(slice_bytes(&project.manifest_path, 0, project.manifest_path.len()));
    let dir = slice_bytes(&project.root, 0, project.root.len());
    assert(dir@ =~= project.root@);
    assert(args@[2]@ =~= project.manifest_path@);
    assert(args@.map_values(|a: Vec<u8>| a@) =~= seq![
        encode_utf8("clean"@),
        encode_utf8("--manifest-path"@),
        project.manifest_path@,
    ]);
    CleanCommand { program: "cargo".to_owned(), args, dir }
}

/// How one run of `cargo clean` ended.
pub enum CommandOutcome {
    /// It exited successfully.
    Succeeded,
    /// It exited unsuccessfully with these outputs.
    Exited { stderr: Vec<u8>, stdout: Vec<u8> },
    /// It could not be run; the error's text.
    NotRun { message: String },
}

/// Whether a session waits to hear if cargo is busy, or for a clean to end.
#[derive(Clone, Copy, Debug, PartialEq, Eq, Structural)]
pub enum CleanStage {
    Checking,
    Running,
}

/// A plan being worked through, one project at a time: for each project
/// the caller says whether cargo is busy in its tree ([`CleanSession::decide`])
/// and, once a clean was started, how `cargo clean` ended
/// ([`CleanSession::record`]).
pub struct CleanSession {
    projects: Vec<ProjectInfo>,
    position: usize,
    stage: CleanStage,
    summary: CleanSummary,
}

impl CleanSession {
    /// The projects of the plan.
    pub closed spec fn plan(&self) -> Seq<ProjectView> {
        project_views(self.projects@)
    }

    /// How many projects are done with.
    pub closed spec fn done(&self) -> nat {
        self.position as nat
    }

    pub closed spec fn stage_spec(&self) -> CleanStage {
        self.stage
    }

    pub closed spec fn summary_spec(&self) -> CleanSummary {
        self.summary
    }

    /// Every project done with was counted exactly once.
    pub closed spec fn wf(&self) -> bool {
        &&& self.position <= self.projects.len()
        &&& self.summary.cleaned + self.summary.failed + self.summary.skipped == self.position
        &&& (self.stage == CleanStage::Running ==> self.position < self.projects.len())
    }

    /// A session at the start of `plan`.
    pub fn new(plan: CleanPlan) -> (s: CleanSession)
        ensures
            s.wf(),
            s.plan() == project_views(plan.projects@),
            s.done() == 0,
            s.stage_spec() == CleanStage::Checking,
            s.summary_spec() == (CleanSummary { cleaned: 0, failed: 0, skipped: 0 }),
    {
        CleanSession {
            projects: plan.projects,
            position: 0,
            stage: CleanStage::Checking,
            summary: CleanSummary { cleaned: 0, failed: 0, skipped: 0 },
        }
    }

    /// The project being worked on, if any is left.
    pub fn current(&self) -> (p: Option<&ProjectInfo>)
        requires
            self.wf(),
        ensures
            p matches Some(q) ==> self.done() < self.plan().len() && q@ == self.plan()[self.done() as int],
            p is None ==> self.done() == self.plan().len(),
    {
        if self.position < self.projects.len() {
            Some(&self.projects[self.position])
        } else {
            None
        }
    }

    /// The counts so far.
    pub fn summary(&self) -> (s: CleanSummary)
        ensures
            s == self.summary_spec(),
    {
        self.summary
    }

    /// Acts on whether cargo is busy in the current project's tree: a busy
    /// project is skipped and counted so; otherwise its clean starts. Nothing
    /// happens when no project is left or a clean is already running.
    pub fn decide(&mut self, busy: bool) -> (event: Option<CleanEvent>)
        requires
            old(self).wf(),
        ensures
            final(self).wf(),
            final(self).plan() == old(self).plan(),
            old(self).done() < old(self).plan().len() && old(self).stage_spec() == CleanStage::Checking
                ==> {
                let p = old(self).plan()[old(self).done() as int];
                if busy {
                    &&& event matches Some(CleanEvent::Skipped { project, message }) && project@ == p
                        && message@ == busy_message()
                    &&& final(self).done() == old(self).done() + 1
                    &&& final(self).stage_spec() == CleanStage::Checking
                    &&& final(self).summary_spec() == (CleanSummary {
                        skipped: (old(self).summary_spec().skipped + 1) as usize,
                        ..old(self).summary_spec()
                    })
                } else {
                    &&& event matches Some(CleanEvent::Started { index, total, project })
                        && index == old(self).done() + 1 && total == old(self).plan().len()
                        && project@ == p
                    &&& final(self).done() == old(self).done()
                    &&& final(self).stage_spec() == CleanStage::Running
                    &&& final(self).summary_spec() == old(self).summary_spec()
                }
            },
            !(old(self).done() < old(self).plan().len() && old(self).stage_spec()
                == CleanStage::Checking) ==> event is None && final(self).done() == old(self).done()
                && final(self).stage_spec() == old(self).stage_spec() && final(self).summary_spec()
                == old(self).summary_spec(),
    {
        if self.position >= self.projects.len() || self.stage != CleanStage::Checking {
            return None;
        }
        let project = self.projects[self.position].duplicate();
        if busy {
            self.summary.skipped = self.summary.skipped + 1;
            self.position = self.position + 1;
            Some(CleanEvent::Skipped { project, message: "cargo is already running in this project tree".to_owned() })
        } else {
            self.stage = CleanStage::Running;
            Some(CleanEvent::Started { index: self.position + 1, total: self.projects.len(), project })
        }
    }

    /// Acts on how the running clean ended: success counts as cleaned and
    /// reports the project's `target/` size as reclaimed; anything else
    /// counts as failed, with the command's message or the error's text.
    /// Nothing happens when no clean is running.
    pub fn record(&mut self, outcome: CommandOutcome) -> (event: Option<CleanEvent>)
        requires
            old(self).wf(),
        ensures
            final(self).wf(),
            final(self).plan() == old(self).plan(),
            old(self).stage_spec() == CleanStage::Running ==> {
                let p = old(self).plan()[old(self).done() as int];
                &&& final(self).done() == old(self).done() + 1
                &&& final(self).stage_spec() == CleanStage::Checking
                &&& match outcome {
                    CommandOutcome::Succeeded => {
                        &&& event matches Some(CleanEvent::Cleaned { project, reclaimed })
                            && project@ == p && reclaimed == p.target_size
                        &&& final(self).summary_spec() == (CleanSummary {
                            cleaned: (old(self).summary_spec().cleaned + 1) as usize,
                            ..old(self).summary_spec()
                        })
                    },
                    CommandOutcome::Exited { stderr, stdout } => {
                        &&& event matches Some(CleanEvent::Failed { project, message })
                            && project@ == p && message@ == failure_text(stderr@, stdout@)
                        &&& final(self).summary_spec() == (CleanSummary {
                            failed: (old(self).summary_spec().failed + 1) as usize,
                            ..old(self).summary_spec()
                        })
                    },
                    CommandOutcome::NotRun { message: m } => {
                        &&& event matches Some(CleanEvent::Failed { project, message })
                            && project@ == p && message@ == m@
                        &&& final(self).summary_spec() == (CleanSummary {
                            failed: (old(self).summary_spec().failed + 1) as usize,
                            ..old(self).summary_spec()
                        })
                    },
                }
            },
            old(self).stage_spec() != CleanStage::Running ==> event is None && final(self).done()
                == old(self).done() && final(self).stage_spec() == old(self).stage_spec()
                && final(self).summary_spec() == old(self).summary_spec(),
    {
        if self.stage != CleanStage::Running {
            return None;
        }
        let project = self.projects[self.position].duplicate();
        self.stage = CleanStage::Checking;
        self.position = self.position + 1;
        match outcome {
            CommandOutcome::Succeeded => {
                self.summary.cleaned = self.summary.cleaned + 1;
                let reclaimed = project.target_size;
                Some(CleanEvent::Cleaned { project, reclaimed })
            },
            CommandOutcome::Exited { stderr, stdout } => {
                self.summary.failed = self.summary.failed + 1;
                let message = command_failure_message(stderr.as_slice(), stdout.as_slice());
                Some(CleanEvent::Failed { project, message })
            },
            CommandOutcome::NotRun { message } => {
                self.summary.failed = self.summary.failed + 1;
                Some(CleanEvent::Failed { project, message })
            },
        }
    }
}

/// A compacted message holds at most 180 characters.
pub proof fn lemma_compacted_length(message: Seq<char>)
    ensures
        compacted(message).len() <= message_limit(),
{
}

/// Sharing a project tree does not depend on the order of the two paths,
/// and every path shares its own tree.
pub proof fn lemma_share_tree_symmetric(left: Seq<u8>, right: Seq<u8>)
    ensures
        share_tree(left, right) == share_tree(right, left),
        share_tree(left, left),
{
    assert(components(left).take(components(left).len() as int) =~= components(left));
}

/// The counts of a session always add up to the projects done with, so a
/// finished session has counted every project of its plan once.
pub proof fn lemma_session_counts(s: CleanSession)
    requires
        s.wf(),
    ensures
        s.summary_spec().cleaned + s.summary_spec().failed + s.summary_spec().skipped == s.done(),
        s.done() <= s.plan().len(),
        s.done() == s.plan().len() ==> s.summary_spec().cleaned + s.summary_spec().failed
            + s.summary_spec().skipped == s.plan().len(),
{
}

/// A project is busy as soon as any one scope root, at any position in
/// the list, shares its tree.
pub proof fn lemma_busy_from_any_root(scope_roots: Seq<Seq<u8>>, root: Seq<u8>, i: int)
    requires
        0 <= i < scope_roots.len(),
        share_tree(scope_roots[i], root),
    ensures
        busy_tree(scope_roots, root),
{
}

/// With no cargo process running, no project is busy; a project that
/// shares its tree with no scope root is not busy.
pub proof fn lemma_not_busy_without_sharing(scope_roots: Seq<Seq<u8>>, root: Seq<u8>)
    requires
        forall|i: int| 0 <= i < scope_roots.len() ==> !share_tree(#[trigger] scope_roots[i], root),
    ensures
        !busy_tree(scope_roots, root),
        !busy_tree(seq![], root),
{
}

/// Adding a scope root, at the end or at the front, keeps a busy project
/// busy and makes it busy exactly when the new root shares its tree; the
/// answer does not depend on where the root is added.
pub proof fn lemma_busy_adding_root(scope_roots: Seq<Seq<u8>>, extra: Seq<u8>, root: Seq<u8>)
    ensures
        busy_tree(scope_roots.push(extra), root) == (busy_tree(scope_roots, root) || share_tree(
            extra,
            root,
        )),
        busy_tree(seq![extra] + scope_roots, root) == busy_tree(scope_roots.push(extra), root),
{
    let back = scope_roots.push(extra);
    let front = seq![extra] + scope_roots;
    let n = scope_roots.len() as int;
    if busy_tree(scope_roots, root) {
        let i = choose|i: int| 0 <= i < n && share_tree(#[trigger] scope_roots[i], root);
        assert(back[i] == scope_roots[i]);
        assert(front[i + 1] == scope_roots[i]);
    }
    if share_tree(extra, root) {
        assert(back[n] == extra);
        assert(front[0] == extra);
    }
    if busy_tree(back, root) {
        let i = choose|i: int| 0 <= i < back.len() && share_tree(#[trigger] back[i], root);
        if i < n {
            assert(back[i] == scope_roots[i]);
        }
    }
    if busy_tree(front, root) {
        let i = choose|i: int| 0 <= i < front.len() && share_tree(#[trigger] front[i], root);
        if i > 0 {
            assert(front[i] == scope_roots[i - 1]);
        }
    }
}

/// A scope root inside the project, or one that contains it, makes it busy.
pub proof fn lemma_ancestor_or_descendant_shares(scope: Seq<u8>, root: Seq<u8>)
    requires
        starts_with(scope, root) || starts_with(root, scope),
    ensures
        busy_tree(seq![scope], root),
{
    assert(seq![scope][0] == scope);
}

} // verus!
