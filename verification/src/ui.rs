//! The state of the interactive project list: selection, cursor, scrolling,
//! sorting, key handling and the progress of a clean, apart from drawing
//! and the terminal itself.

use vstd::prelude::*;
use crate::cleaner::{chosen, min_len, CleanEvent, CleanPlan};
use crate::paths::{components, slice_bytes};
use crate::format::{bytes_text, format_bytes, middle_truncated, truncate_middle};
use crate::text::{chars_to_string, decimal, lossy_text, push_decimal, push_str, utf8_lossy};
use crate::scan::{
    display_relative, find_root, first_with_root, lemma_first_with_root_found, lemma_sorting_keeps_projects, lemma_first_with_root_bounds, project_views, sort_projects,
    stably_sorted, ProjectInfo, ProjectView, ScanReport, SortKey,
};

verus! {

/// Where a project stands in the current session.
#[derive(Clone, Copy, Debug, PartialEq, Eq, Structural)]
pub enum ProjectStatus {
    Idle,
    Cleaning,
    Cleaned,
    Failed,
}

/// What the list is doing.
#[derive(Clone, Copy, Debug, PartialEq, Eq, Structural)]
pub enum Mode {
    Browsing,
    ConfirmClean,
    Cleaning,
}

/// A rectangle of terminal cells.
#[derive(Clone, Copy, Debug, PartialEq, Eq, Structural)]
pub struct Area {
    pub x: u16,
    pub y: u16,
    pub width: u16,
    pub height: u16,
}

/// The interactive list of projects.
pub struct App {
    pub report: ScanReport,
    /// Whether each project is selected for cleaning.
    pub selected: Vec<bool>,
    /// What happened to each project in this session.
    pub statuses: Vec<ProjectStatus>,
    /// The row the cursor is on.
    pub cursor: usize,
    /// The first row on screen.
    pub offset: usize,
    pub sort: SortKey,
    pub mode: Mode,
    /// The line shown under the list.
    pub message: String,
}

/// The number of selected flags in `s`.
pub open spec fn count_true(s: Seq<bool>) -> nat
    decreases s.len(),
{
    if s.len() == 0 {
        0
    } else {
        count_true(s.drop_last()) + if s.last() {
            1nat
        } else {
            0nat
        }
    }
}

/// The `target/` bytes of the first `n` projects that are selected.
pub open spec fn reclaimable(projects: Seq<ProjectView>, selected: Seq<bool>, n: int) -> nat
    decreases n,
{
    if n <= 0 {
        0
    } else {
        reclaimable(projects, selected, n - 1) + if selected[n - 1] {
            projects[n - 1].target_size as nat
        } else {
            0nat
        }
    }
}

/// The largest row index, or 0 for an empty list.
pub open spec fn last_row(len: nat) -> int {
    if len == 0 {
        0
    } else {
        len - 1
    }
}

/// The first row on screen once the cursor is made visible in pages of
/// `page` rows.
pub open spec fn visible_offset(cursor: int, offset: int, page: int) -> int {
    let o = if cursor < offset {
        cursor
    } else {
        offset
    };
    if cursor >= o + page {
        cursor + 1 - page
    } else {
        o
    }
}

/// Whether scrolling to `cursor` stays within `usize`: the first row on
/// screen plus a page, and the row after the cursor, must be numbers.
pub open spec fn room_to_scroll(cursor: int, offset: int, page: int) -> bool {
    let o = if cursor < offset {
        cursor
    } else {
        offset
    };
    o + page <= usize::MAX && cursor < usize::MAX
}

/// The cursor after moving by `delta` rows, held inside the list.
pub open spec fn moved_cursor(cursor: int, delta: int, len: nat) -> int {
    let raw = if cursor + delta < 0 {
        0
    } else if cursor + delta > usize::MAX {
        usize::MAX as int
    } else {
        cursor + delta
    };
    if raw < last_row(len) {
        raw
    } else {
        last_row(len)
    }
}

/// Rows of the list in a table area of height `height`: the height less
/// the frame and the header line, at least one.
pub open spec fn rows_in(height: u16) -> int {
    if height <= 4 {
        1
    } else {
        height - 3
    }
}

/// Everything but the cursor and the first row on screen is as it was.
pub open spec fn same_rows(a: App, b: App) -> bool {
    &&& b.report == a.report
    &&& b.selected == a.selected
    &&& b.statuses == a.statuses
    &&& b.sort == a.sort
    &&& b.mode == a.mode
    &&& b.message == a.message
}

/// `b` is `a` scrolled so that the cursor is on screen.
pub open spec fn scrolled(a: App, b: App, page: int) -> bool {
    &&& same_rows(a, b)
    &&& b.cursor == a.cursor
    &&& b.offset == visible_offset(a.cursor as int, a.offset as int, page)
}

/// `b` is `a` with the cursor moved by `delta` rows and scrolled to.
pub open spec fn moved(a: App, b: App, delta: int, page: int) -> bool {
    &&& same_rows(a, b)
    &&& b.cursor == moved_cursor(a.cursor as int, delta, a.report.projects.len() as nat)
    &&& b.offset == visible_offset(b.cursor as int, a.offset as int, page)
}

/// `b` is `a` with the cursor put on row `index` (or the last row) and
/// scrolled to.
pub open spec fn jumped(a: App, b: App, index: int, page: int) -> bool {
    let last = last_row(a.report.projects.len() as nat);
    &&& same_rows(a, b)
    &&& b.cursor == (if index < last {
        index
    } else {
        last
    })
    &&& b.offset == visible_offset(b.cursor as int, a.offset as int, page)
}

/// Only the selection changed.
pub open spec fn same_but_selection(a: App, b: App) -> bool {
    &&& b.report == a.report
    &&& b.statuses == a.statuses
    &&& b.cursor == a.cursor
    &&& b.offset == a.offset
    &&& b.sort == a.sort
    &&& b.mode == a.mode
    &&& b.message == a.message
}

/// `b` is `a` with the project under the cursor selected or unselected.
pub open spec fn toggled_current(a: App, b: App) -> bool {
    &&& same_but_selection(a, b)
    &&& b.selected@ == (if a.cursor < a.selected.len() {
        a.selected@.update(a.cursor as int, !a.selected@[a.cursor as int])
    } else {
        a.selected@
    })
}

/// `b` is `a` with every project selected, or none when all were.
pub open spec fn toggled_all(a: App, b: App) -> bool {
    &&& same_but_selection(a, b)
    &&& b.selected.len() == a.selected.len()
    &&& forall|i: int|
        0 <= i < b.selected.len() ==> b.selected@[i] == !(forall|k: int|
            0 <= k < a.selected.len() ==> a.selected@[k])
}

/// `b` holds the rows of `a` sorted by `key`; selections and statuses went
/// with their projects and the cursor with its project. The scan root,
/// warnings and scrolling are unchanged.
pub open spec fn rows_resorted(a: App, b: App, key: SortKey) -> bool {
    let old_ps = project_views(a.report.projects@);
    let new_ps = project_views(b.report.projects@);
    &&& stably_sorted(new_ps, old_ps, key)
    &&& b.selected.len() == new_ps.len()
    &&& b.statuses.len() == new_ps.len()
    &&& forall|k: int|
        0 <= k < b.selected.len() ==> b.selected@[k] == carried_flag(
            old_ps,
            a.selected@,
            #[trigger] b.report.projects@[k].root@,
        )
    &&& forall|k: int|
        0 <= k < b.statuses.len() ==> b.statuses@[k] == carried_status(
            old_ps,
            a.statuses@,
            #[trigger] b.report.projects@[k].root@,
        )
    &&& b.cursor == carried_cursor(old_ps, new_ps, a.cursor as int)
    &&& b.report.scan_root == a.report.scan_root
    &&& b.report.warnings == a.report.warnings
    &&& b.offset == a.offset
}

/// The other sort key.
pub open spec fn other_sort(key: SortKey) -> SortKey {
    match key {
        SortKey::Size => SortKey::Modified,
        SortKey::Modified => SortKey::Size,
    }
}

/// The message shown after sorting by `key`.
pub open spec fn sort_message(key: SortKey) -> Seq<char> {
    match key {
        SortKey::Size => "Sorted by reclaimable target size"@,
        SortKey::Modified => "Sorted by latest project modification"@,
    }
}

/// `b` is `a` switched to the other sort key and re-sorted by it.
pub open spec fn sort_toggled(a: App, b: App) -> bool {
    &&& rows_resorted(a, b, other_sort(a.sort))
    &&& b.sort == other_sort(a.sort)
    &&& b.mode == a.mode
    &&& b.message@ == sort_message(b.sort)
}

impl App {
    /// The lengths agree and the cursor is on a row (or 0 when there is none).
    pub open spec fn wf(&self) -> bool {
        &&& self.selected.len() == self.report.projects.len()
        &&& self.statuses.len() == self.report.projects.len()
        &&& self.cursor <= last_row(self.report.projects.len() as nat)
    }

    /// A list of the scanned projects, all selected, sorted as given.
    pub fn new(report: ScanReport, sort: SortKey) -> (app: App)
        ensures
            app.wf(),
            app.report == report,
            forall|i: int| 0 <= i < app.selected.len() ==> app.selected@[i],
            forall|i: int| 0 <= i < app.statuses.len() ==> app.statuses@[i] == ProjectStatus::Idle,
            app.cursor == 0,
            app.offset == 0,
            app.sort == sort,
            app.mode == Mode::Browsing,
            app.message@ == "Space toggles, c cleans, s sorts, a selects all, q quits"@,
    {
        let count = report.projects.len();
        let mut selected: Vec<bool> = Vec::new();
        let mut statuses: Vec<ProjectStatus> = Vec::new();
        let mut i: usize = 0;
        while i < count
            invariant
                i <= count,
                selected.len() == i,
                statuses.len() == i,
                forall|k: int| 0 <= k < i ==> selected@[k],
                forall|k: int| 0 <= k < i ==> statuses@[k] == ProjectStatus::Idle,
            decreases count - i,
        {
            selected.push(true);
            statuses.push(ProjectStatus::Idle);
            i = i + 1;
        }
        App {
            report,
            selected,
            statuses,
            cursor: 0,
            offset: 0,
            sort,
            mode: Mode::Browsing,
            message: "Space toggles, c cleans, s sorts, a selects all, q quits".to_owned(),
        }
    }

    /// How many projects are selected.
    pub fn selected_count(&self) -> (n: usize)
        ensures
            n == count_true(self.selected@),
    {
        let mut n: usize = 0;
        let mut i: usize = 0;
        while i < self.selected.len()
            invariant
                i <= self.selected.len(),
                n == count_true(self.selected@.take(i as int)),
                n <= i,
            decreases self.selected.len() - i,
        {
            assert(self.selected@.take(i + 1).drop_last() =~= self.selected@.take(i as int));
            if self.selected[i] {
                n = n + 1;
            }
            i = i + 1;
        }
        assert(self.selected@.take(self.selected.len() as int) =~= self.selected@);
        n
    }

    /// The `target/` bytes of the selected projects.
    pub fn total_reclaimable(&self) -> (total: u64)
        requires
            self.wf(),
            reclaimable(project_views(self.report.projects@), self.selected@, self.selected.len() as int)
                <= u64::MAX,
        ensures
            total == reclaimable(project_views(self.report.projects@), self.selected@, self.selected.len() as int),
    {
        let ghost ps = project_views(self.report.projects@);
        let n = self.selected.len();
        let mut total: u64 = 0;
        let mut i: usize = 0;
        while i < n
            invariant
                i <= n == self.selected.len() == self.report.projects.len(),
                ps == project_views(self.report.projects@),
                total == reclaimable(ps, self.selected@, i as int),
                reclaimable(ps, self.selected@, n as int) <= u64::MAX,
            decreases n - i,
        {
            proof {
                lemma_reclaimable_grows(ps, self.selected@, i + 1, n as int);
            }
            if self.selected[i] {
                assert(ps[i as int] == self.report.projects@[i as int]@);
                total = total + self.report.projects[i].target_size;
            }
            i = i + 1;
        }
        total
    }

    /// Rows of the list that fit into the table area `area`.
    pub fn page_size(area: Area) -> (rows: usize)
        ensures
            rows == rows_in(area.height),
            1 <= rows <= 65532,
    {
        let h = if area.height >= 3 {
            area.height - 3
        } else {
            0
        };
        if h >= 1 {
            h as usize
        } else {
            1
        }
    }

    /// Scrolls so that the cursor's row is on screen.
    pub fn ensure_cursor_visible(&mut self, page_size: usize)
        requires
            room_to_scroll(old(self).cursor as int, old(self).offset as int, page_size as int),
        ensures
            scrolled(*old(self), *final(self), page_size as int),
    {
        if self.cursor < self.offset {
            self.offset = self.cursor;
        }
        if self.cursor >= self.offset + page_size {
            self.offset = self.cursor + 1 - page_size;
        }
    }

    /// Moves the cursor by `delta` rows, staying on the list, and scrolls to it.
    pub fn move_cursor(&mut self, delta: isize, page_size: usize)
        requires
            old(self).wf(),
            room_to_scroll(
                moved_cursor(old(self).cursor as int, delta as int, old(self).report.projects.len() as nat),
                old(self).offset as int,
                page_size as int,
            ),
        ensures
            final(self).wf(),
            moved(*old(self), *final(self), delta as int, page_size as int),
    {
        let max = if self.report.projects.len() > 0 {
            self.report.projects.len() - 1
        } else {
            0
        };
        let raw: usize = if delta >= 0 {
            let d = delta as usize;
            if self.cursor > usize::MAX - d {
                usize::MAX
            } else {
                self.cursor + d
            }
        } else {
            let back: usize = ((-(delta + 1)) as usize) + 1;
            if back > self.cursor {
                0
            } else {
                self.cursor - back
            }
        };
        self.cursor = if raw < max {
            raw
        } else {
            max
        };
        self.ensure_cursor_visible(page_size);
    }

    /// Puts the cursor on row `index` (or the last row) and scrolls to it.
    pub fn jump_cursor(&mut self, index: usize, page_size: usize)
        requires
            old(self).wf(),
            room_to_scroll(
                (if index < last_row(old(self).report.projects.len() as nat) {
                    index as int
                } else {
                    last_row(old(self).report.projects.len() as nat)
                }),
                old(self).offset as int,
                page_size as int,
            ),
        ensures
            final(self).wf(),
            jumped(*old(self), *final(self), index as int, page_size as int),
    {
        let max = if self.report.projects.len() > 0 {
            self.report.projects.len() - 1
        } else {
            0
        };
        self.cursor = if index < max {
            index
        } else {
            max
        };
        self.ensure_cursor_visible(page_size);
    }

    /// Flips the selection of the project under the cursor.
    pub fn toggle_current(&mut self)
        requires
            old(self).wf(),
        ensures
            final(self).wf(),
            toggled_current(*old(self), *final(self)),
    {
        if self.cursor < self.selected.len() {
            let c = self.cursor;
            let v = self.selected[c];
            self.selected.set(c, !v);
        }
    }

    /// Selects every project, or none when all already are.
    pub fn toggle_all(&mut self)
        requires
            old(self).wf(),
        ensures
            final(self).wf(),
            toggled_all(*old(self), *final(self)),
    {
        let n = self.selected.len();
        let mut all = true;
        let mut i: usize = 0;
        while i < n
            invariant
                i <= n == self.selected.len(),
                all == (forall|k: int| 0 <= k < i ==> self.selected@[k]),
            decreases n - i,
        {
            if !self.selected[i] {
                all = false;
            }
            i = i + 1;
        }
        let mut flags: Vec<bool> = Vec::new();
        assert(all == (forall|k: int| 0 <= k < self.selected.len() ==> self.selected@[k]));
        let mut j: usize = 0;
        while j < n
            invariant
                j <= n,
                flags.len() == j,
                forall|k: int| 0 <= k < j ==> flags@[k] == !all,
            decreases n - j,
        {
            flags.push(!all);
            j = j + 1;
        }
        self.selected = flags;
    }
}

/// The selection a project keeps after reordering: that of the first old
/// row with the same root, or selected when there is none.
pub open spec fn carried_flag(old_ps: Seq<ProjectView>, old_selected: Seq<bool>, root: Seq<u8>) -> bool {
    match first_with_root(old_ps, root, 0) {
        Some(j) => old_selected[j],
        None => true,
    }
}

/// The status a project keeps after reordering: that of the first old row
/// with the same root, or idle when there is none.
pub open spec fn carried_status(
    old_ps: Seq<ProjectView>,
    old_statuses: Seq<ProjectStatus>,
    root: Seq<u8>,
) -> ProjectStatus {
    match first_with_root(old_ps, root, 0) {
        Some(j) => old_statuses[j],
        None => ProjectStatus::Idle,
    }
}

/// The cursor after reordering: on the first row with the root the cursor
/// was on, or where it was.
pub open spec fn carried_cursor(old_ps: Seq<ProjectView>, new_ps: Seq<ProjectView>, cursor: int) -> int {
    if 0 <= cursor < old_ps.len() {
        match first_with_root(new_ps, old_ps[cursor].root, 0) {
            Some(i) => i,
            None => cursor,
        }
    } else {
        cursor
    }
}

impl App {
    /// Re-sorts the rows by the current sort key; selections and statuses
    /// go with their projects and the cursor stays on its project.
    pub fn sort_rows_preserving_cursor(&mut self)
        requires
            old(self).wf(),
        ensures
            final(self).wf(),
            rows_resorted(*old(self), *final(self), old(self).sort),
            final(self).sort == old(self).sort,
            final(self).mode == old(self).mode,
            final(self).message == old(self).message,
    {
        let ghost old_ps = project_views(self.report.projects@);
        let n = self.report.projects.len();
        let current_root: Option<Vec<u8>> = if self.cursor < n {
            let r = &self.report.projects[self.cursor].root;
            let copy = slice_bytes(r, 0, r.len());
            assert(copy@ =~= r@);
            assert(old_ps[self.cursor as int] == self.report.projects@[self.cursor as int]@);
            Some(copy)
        } else {
            None
        };
        let mut projects: Vec<ProjectInfo> = Vec::new();
        let mut i: usize = 0;
        while i < n
            invariant
                i <= n == self.report.projects.len(),
                old_ps == project_views(self.report.projects@),
                projects.len() == i,
                forall|k: int| 0 <= k < i ==> #[trigger] projects@[k]@ == old_ps[k],
            decreases n - i,
        {
            projects.push(self.report.projects[i].duplicate());
            i = i + 1;
        }
        assert(project_views(projects@) =~= old_ps);
        sort_projects(&mut projects, self.sort);
        let ghost new_ps = project_views(projects@);
        let mut selected: Vec<bool> = Vec::new();
        let mut statuses: Vec<ProjectStatus> = Vec::new();
        let mut k: usize = 0;
        while k < n
            invariant
                k <= n == self.report.projects.len() == projects.len() == self.selected.len()
                    == self.statuses.len(),
                old_ps == project_views(self.report.projects@),
                selected.len() == k,
                statuses.len() == k,
                forall|q: int|
                    0 <= q < k ==> selected@[q] == carried_flag(old_ps, self.selected@, #[trigger] projects@[q].root@),
                forall|q: int|
                    0 <= q < k ==> statuses@[q] == carried_status(old_ps, self.statuses@, #[trigger] projects@[q].root@),
            decreases n - k,
        {
            let found = find_root(&self.report.projects, &projects[k].root);
            proof {
                lemma_first_with_root_bounds(old_ps, projects@[k as int].root@, 0);
            }
            match found {
                Some(j) => {
                    selected.push(self.selected[j]);
                    statuses.push(self.statuses[j]);
                },
                None => {
                    selected.push(true);
                    statuses.push(ProjectStatus::Idle);
                },
            }
            k = k + 1;
        }
        self.report.projects = projects;
        self.selected = selected;
        self.statuses = statuses;
        if let Some(root) = current_root {
            let found = find_root(&self.report.projects, &root);
            proof {
                lemma_first_with_root_bounds(new_ps, root@, 0);
            }
            if let Some(idx) = found {
                self.cursor = idx;
            }
        }
    }
}

/// Adding projects never lowers the reclaimable total.
pub proof fn lemma_reclaimable_grows(projects: Seq<ProjectView>, selected: Seq<bool>, m: int, n: int)
    requires
        m <= n,
    ensures
        reclaimable(projects, selected, m) <= reclaimable(projects, selected, n),
    decreases n - m,
{
    if m < n {
        lemma_reclaimable_grows(projects, selected, m, n - 1);
    }
}


impl App {
    /// Switches to the other sort key and re-sorts the rows by it.
    pub fn toggle_sort(&mut self)
        requires
            old(self).wf(),
        ensures
            final(self).wf(),
            sort_toggled(*old(self), *final(self)),
    {
        self.sort = match self.sort {
            SortKey::Size => SortKey::Modified,
            SortKey::Modified => SortKey::Size,
        };
        self.sort_rows_preserving_cursor();
        self.message = match self.sort {
            SortKey::Size => "Sorted by reclaimable target size".to_owned(),
            SortKey::Modified => "Sorted by latest project modification".to_owned(),
        };
    }
}


/// A key, as far as the list tells keys apart.
#[derive(Clone, Copy, Debug, PartialEq, Eq, Structural)]
pub enum KeyCode {
    Char(char),
    Esc,
    Enter,
    Up,
    Down,
    PageUp,
    PageDown,
    Home,
    End,
    Other,
}

/// A key event: the key, whether Control was held, whether it was released.
#[derive(Clone, Copy, Debug, PartialEq, Eq, Structural)]
pub struct KeyInput {
    pub code: KeyCode,
    pub control: bool,
    pub release: bool,
}

/// What the caller does after a key.
#[derive(Clone, Copy, Debug, PartialEq, Eq, Structural)]
pub enum KeyOutcome {
    /// Keep showing the list.
    Continue,
    /// Leave the list.
    Quit,
    /// Clean the selected projects now.
    Clean,
}

/// `b` is `a` with only the message changed, to `text`.
pub open spec fn only_message(a: App, b: App, text: Seq<char>) -> bool {
    &&& b.report == a.report
    &&& b.selected == a.selected
    &&& b.statuses == a.statuses
    &&& b.cursor == a.cursor
    &&& b.offset == a.offset
    &&& b.sort == a.sort
    &&& b.mode == a.mode
    &&& b.message@ == text
}

/// `b` is `a` with only the mode changed.
pub open spec fn only_mode(a: App, b: App, mode: Mode) -> bool {
    &&& b.report == a.report
    &&& b.selected == a.selected
    &&& b.statuses == a.statuses
    &&& b.cursor == a.cursor
    &&& b.offset == a.offset
    &&& b.sort == a.sort
    &&& b.mode == mode
    &&& b.message == a.message
}

/// What a key does to the list in browsing mode.
pub open spec fn browsing_key(a: App, b: App, key: KeyInput, page: int, outcome: KeyOutcome) -> bool {
    let len = a.report.projects.len() as nat;
    match key.code {
        KeyCode::Char(c) => {
            if c == 'q' {
                outcome == KeyOutcome::Quit && b == a
            } else if c == 'c' {
                &&& outcome == KeyOutcome::Continue
                &&& if count_true(a.selected@) == 0 {
                    only_message(a, b, "Select at least one project before cleaning"@)
                } else {
                    only_mode(a, b, Mode::ConfirmClean)
                }
            } else if c == ' ' {
                outcome == KeyOutcome::Continue && toggled_current(a, b)
            } else if c == 'a' {
                outcome == KeyOutcome::Continue && toggled_all(a, b)
            } else if c == 's' {
                &&& outcome == KeyOutcome::Continue
                &&& exists|m: App| sort_toggled(a, m) && scrolled(m, b, page)
            } else if c == 'j' {
                outcome == KeyOutcome::Continue && moved(a, b, 1, page)
            } else if c == 'k' {
                outcome == KeyOutcome::Continue && moved(a, b, -1, page)
            } else if c == 'd' && key.control {
                outcome == KeyOutcome::Quit && b == a
            } else {
                outcome == KeyOutcome::Continue && b == a
            }
        },
        KeyCode::Esc => outcome == KeyOutcome::Quit && b == a,
        KeyCode::Down => outcome == KeyOutcome::Continue && moved(a, b, 1, page),
        KeyCode::Up => outcome == KeyOutcome::Continue && moved(a, b, -1, page),
        KeyCode::PageDown => outcome == KeyOutcome::Continue && moved(a, b, page, page),
        KeyCode::PageUp => outcome == KeyOutcome::Continue && moved(a, b, -page, page),
        KeyCode::Home => outcome == KeyOutcome::Continue && jumped(a, b, 0, page),
        KeyCode::End => outcome == KeyOutcome::Continue && jumped(a, b, last_row(len), page),
        _ => outcome == KeyOutcome::Continue && b == a,
    }
}

/// What a key does to the list: released keys and keys while cleaning do
/// nothing; while a clean waits for confirmation, `y` or Enter confirm,
/// `n` or Escape cancel.
pub open spec fn key_effect(a: App, b: App, key: KeyInput, page: int, outcome: KeyOutcome) -> bool {
    if key.release {
        outcome == KeyOutcome::Continue && b == a
    } else {
        match a.mode {
            Mode::Browsing => browsing_key(a, b, key, page, outcome),
            Mode::ConfirmClean => {
                if key.code == KeyCode::Char('y') || key.code == KeyCode::Enter {
                    outcome == KeyOutcome::Clean && b == a
                } else if key.code == KeyCode::Char('n') || key.code == KeyCode::Esc {
                    &&& outcome == KeyOutcome::Continue
                    &&& b.report == a.report
                    &&& b.selected == a.selected
                    &&& b.statuses == a.statuses
                    &&& b.cursor == a.cursor
                    &&& b.offset == a.offset
                    &&& b.sort == a.sort
                    &&& b.mode == Mode::Browsing
                    &&& b.message@ == "Clean cancelled"@
                } else {
                    outcome == KeyOutcome::Continue && b == a
                }
            },
            Mode::Cleaning => outcome == KeyOutcome::Continue && b == a,
        }
    }
}

impl App {
    /// Acts on a key with `page_size` rows on screen.
    pub fn handle_key(&mut self, key: KeyInput, page_size: usize) -> (outcome: KeyOutcome)
        requires
            old(self).wf(),
            page_size <= isize::MAX,
            old(self).offset + page_size <= usize::MAX,
        ensures
            final(self).wf(),
            key_effect(*old(self), *final(self), key, page_size as int, outcome),
    {
        if key.release {
            return KeyOutcome::Continue;
        }
        let mode = self.mode;
        let outcome = match mode {
            Mode::Browsing => match key.code {
                KeyCode::Char('q') | KeyCode::Esc => {
                    KeyOutcome::Quit
                },
                KeyCode::Char('c') => {
                    if self.selected_count() == 0 {
                        self.message = "Select at least one project before cleaning".to_owned();
                    } else {
                        self.mode = Mode::ConfirmClean;
                    }
                    KeyOutcome::Continue
                },
                KeyCode::Char(' ') => {
                    self.toggle_current();
                    KeyOutcome::Continue
                },
                KeyCode::Char('a') => {
                    self.toggle_all();
                    KeyOutcome::Continue
                },
                KeyCode::Char('s') => {
                    self.toggle_sort();
                    self.ensure_cursor_visible(page_size);
                    KeyOutcome::Continue
                },
                KeyCode::Down | KeyCode::Char('j') => {
                    self.move_cursor(1, page_size);
                    KeyOutcome::Continue
                },
                KeyCode::Up | KeyCode::Char('k') => {
                    self.move_cursor(-1, page_size);
                    KeyOutcome::Continue
                },
                KeyCode::PageDown => {
                    self.move_cursor(page_size as isize, page_size);
                    KeyOutcome::Continue
                },
                KeyCode::PageUp => {
                    self.move_cursor(-(page_size as isize), page_size);
                    KeyOutcome::Continue
                },
                KeyCode::Home => {
                    self.jump_cursor(0, page_size);
                    KeyOutcome::Continue
                },
                KeyCode::End => {
                    let last = if self.report.projects.len() > 0 {
                        self.report.projects.len() - 1
                    } else {
                        0
                    };
                    self.jump_cursor(last, page_size);
                    KeyOutcome::Continue
                },

                KeyCode::Char('d') => {
                    if key.control {
                        KeyOutcome::Quit
                    } else {
                        KeyOutcome::Continue
                    }
                },
                _ => KeyOutcome::Continue,
            },
            Mode::ConfirmClean => match key.code {
                KeyCode::Char('y') | KeyCode::Enter => KeyOutcome::Clean,
                KeyCode::Char('n') | KeyCode::Esc => {
                    self.mode = Mode::Browsing;
                    self.message = "Clean cancelled".to_owned();
                    KeyOutcome::Continue
                },
                _ => KeyOutcome::Continue,
            },
            Mode::Cleaning => KeyOutcome::Continue,
        };
        outcome
    }
}


/// How many entries of `s` are `status`.
pub open spec fn count_status(s: Seq<ProjectStatus>, status: ProjectStatus) -> nat
    decreases s.len(),
{
    if s.len() == 0 {
        0
    } else {
        count_status(s.drop_last(), status) + if s.last() == status {
            1nat
        } else {
            0nat
        }
    }
}

/// The row an event is about: the first with the project's root.
pub open spec fn event_row(a: App, root: Seq<u8>) -> Option<int> {
    first_with_root(project_views(a.report.projects@), root, 0)
}

/// `b` is `a` after `event` was shown: a started clean marks its row as
/// cleaning and says so; a finished one marks it cleaned, empties its
/// `target/` and takes the reclaimed bytes off its total; a failed one
/// marks it failed and shows why; a skipped one keeps its status and sizes
/// and says why it was skipped. Events about projects not in the list
/// change nothing.
pub open spec fn event_applied(a: App, b: App, event: CleanEvent) -> bool {
    &&& b.report.scan_root == a.report.scan_root
    &&& b.report.warnings == a.report.warnings
    &&& b.selected == a.selected
    &&& b.cursor == a.cursor
    &&& b.offset == a.offset
    &&& b.sort == a.sort
    &&& b.mode == a.mode
    &&& match event {
        CleanEvent::Started { project, .. } => match event_row(a, project.root@) {
            Some(i) => {
                &&& b.report.projects == a.report.projects
                &&& b.statuses@ == a.statuses@.update(i, ProjectStatus::Cleaning)
                &&& b.message@ == "Cleaning "@ + utf8_lossy(project.root@)
            },
            None => b == a,
        },
        CleanEvent::Cleaned { project, reclaimed } => match event_row(a, project.root@) {
            Some(i) => {
                let p = project_views(a.report.projects@)[i];
                &&& project_views(b.report.projects@) == project_views(a.report.projects@).update(
                    i,
                    ProjectView {
                        target_size: 0,
                        total_size: if p.total_size >= reclaimed {
                            (p.total_size - reclaimed) as u64
                        } else {
                            0
                        },
                        ..p
                    },
                )
                &&& b.statuses@ == a.statuses@.update(i, ProjectStatus::Cleaned)
                &&& b.message == a.message
            },
            None => b == a,
        },
        CleanEvent::Failed { project, message } => match event_row(a, project.root@) {
            Some(i) => {
                &&& b.report.projects == a.report.projects
                &&& b.statuses@ == a.statuses@.update(i, ProjectStatus::Failed)
                &&& b.message@ == "Failed "@ + project.name@ + ": "@ + message@
            },
            None => b == a,
        },
        CleanEvent::Skipped { project, message } => match event_row(a, project.root@) {
            Some(i) => {
                &&& b.report.projects == a.report.projects
                &&& b.statuses == a.statuses
                &&& b.message@ == "Skipped "@ + project.name@ + ": "@ + message@
            },
            None => b == a,
        },
    }
}

impl App {
    /// Starts cleaning the selected projects: returns their plan.
    pub fn begin_clean(&mut self) -> (plan: CleanPlan)
        requires
            old(self).wf(),
        ensures
            final(self).wf(),
            project_views(plan.projects@) == chosen(
                project_views(old(self).report.projects@),
                old(self).selected@,
                min_len(old(self).report.projects.len() as nat, old(self).selected.len() as nat),
            ),
            final(self).mode == Mode::Cleaning,
            final(self).message@ == "Cleaning selected projects..."@,
            final(self).report == old(self).report,
            final(self).selected == old(self).selected,
            final(self).statuses == old(self).statuses,
            final(self).cursor == old(self).cursor,
            final(self).offset == old(self).offset,
            final(self).sort == old(self).sort,
    {
        self.mode = Mode::Cleaning;
        self.message = "Cleaning selected projects...".to_owned();
        CleanPlan::selected(&self.report.projects, &self.selected)
    }

    /// Shows what happened to one project of the clean.
    pub fn apply_clean_event(&mut self, event: &CleanEvent)
        requires
            old(self).wf(),
        ensures
            final(self).wf(),
            event_applied(*old(self), *final(self), *event),
    {
        match event {
            CleanEvent::Started { project, .. } => {
                let found = find_root(&self.report.projects, &project.root);
                proof {
                    lemma_first_with_root_bounds(project_views(self.report.projects@), project.root@, 0);
                }
                if let Some(i) = found {
                    self.statuses.set(i, ProjectStatus::Cleaning);
                    let mut text: Vec<char> = Vec::new();
                    push_str(&mut text, "Cleaning ");
                    push_str(&mut text, lossy_text(project.root.as_slice()).as_str());
                    self.message = chars_to_string(&text);
                }
            },
            CleanEvent::Cleaned { project, reclaimed } => {
                let found = find_root(&self.report.projects, &project.root);
                proof {
                    lemma_first_with_root_bounds(project_views(self.report.projects@), project.root@, 0);
                }
                if let Some(i) = found {
                    self.statuses.set(i, ProjectStatus::Cleaned);
                    let ghost before = project_views(self.report.projects@);
                    let mut updated = self.report.projects[i].duplicate();
                    updated.target_size = 0;
                    updated.total_size = if updated.total_size >= *reclaimed {
                        updated.total_size - *reclaimed
                    } else {
                        0
                    };
                    self.report.projects.set(i, updated);
                    assert(project_views(self.report.projects@) =~= before.update(i as int, updated@));
                }
            },
            CleanEvent::Failed { project, message } => {
                let found = find_root(&self.report.projects, &project.root);
                proof {
                    lemma_first_with_root_bounds(project_views(self.report.projects@), project.root@, 0);
                }
                if let Some(i) = found {
                    self.statuses.set(i, ProjectStatus::Failed);
                    let mut text: Vec<char> = Vec::new();
                    push_str(&mut text, "Failed ");
                    push_str(&mut text, project.name.as_str());
                    push_str(&mut text, ": ");
                    push_str(&mut text, message.as_str());
                    self.message = chars_to_string(&text);
                }
            },
            CleanEvent::Skipped { project, message } => {
                let found = find_root(&self.report.projects, &project.root);
                proof {
                    lemma_first_with_root_bounds(project_views(self.report.projects@), project.root@, 0);
                }
                if found.is_some() {
                    let mut text: Vec<char> = Vec::new();
                    push_str(&mut text, "Skipped ");
                    push_str(&mut text, project.name.as_str());
                    push_str(&mut text, ": ");
                    push_str(&mut text, message.as_str());
                    self.message = chars_to_string(&text);
                }
            },
        }
    }

    /// Ends the clean: reports how many projects were cleaned and how many
    /// failed in this session, and re-sorts the rows.
    pub fn finish_clean(&mut self)
        requires
            old(self).wf(),
        ensures
            final(self).wf(),
            rows_resorted(*old(self), *final(self), old(self).sort),
            final(self).sort == old(self).sort,
            final(self).mode == Mode::Browsing,
            final(self).message@ == "Clean complete: "@ + decimal(
                count_status(old(self).statuses@, ProjectStatus::Cleaned),
            ) + " cleaned, "@ + decimal(count_status(old(self).statuses@, ProjectStatus::Failed))
                + " failed"@,
    {
        let failed = count_statuses(&self.statuses, ProjectStatus::Failed);
        let cleaned = count_statuses(&self.statuses, ProjectStatus::Cleaned);
        self.mode = Mode::Browsing;
        let mut text: Vec<char> = Vec::new();
        push_str(&mut text, "Clean complete: ");
        push_decimal(&mut text, cleaned as u128);
        push_str(&mut text, " cleaned, ");
        push_decimal(&mut text, failed as u128);
        push_str(&mut text, " failed");
        self.message = chars_to_string(&text);
        let ghost before = *self;
        self.sort_rows_preserving_cursor();
        assert(rows_resorted(before, *self, before.sort));
    }
}

/// How many entries of `statuses` are `status`.
pub fn count_statuses(statuses: &Vec<ProjectStatus>, status: ProjectStatus) -> (n: usize)
    ensures
        n == count_status(statuses@, status),
{
    let mut n: usize = 0;
    let mut i: usize = 0;
    while i < statuses.len()
        invariant
            i <= statuses.len(),
            n == count_status(statuses@.take(i as int), status),
            n <= i,
        decreases statuses.len() - i,
    {
        assert(statuses@.take(i + 1).drop_last() =~= statuses@.take(i as int));
        if statuses[i] == status {
            n = n + 1;
        }
        i = i + 1;
    }
    assert(statuses@.take(statuses.len() as int) =~= statuses@);
    n
}


/// The reclaimable total when it fits in a `u64`.
pub open spec fn reclaimable_total(a: App) -> Option<u64> {
    let r = reclaimable(project_views(a.report.projects@), a.selected@, a.selected.len() as int);
    if r <= u64::MAX {
        Some(r as u64)
    } else {
        None
    }
}

/// The sort key as the header names it.
pub open spec fn sort_label(key: SortKey) -> Seq<char> {
    match key {
        SortKey::Size => "target size"@,
        SortKey::Modified => "modified date"@,
    }
}

/// The header line after the program name, given the reclaimable total.
pub open spec fn header_text(a: App, total: u64) -> Seq<char> {
    "  "@ + decimal(a.report.projects.len() as nat) + " projects  selected: "@ + decimal(
        count_true(a.selected@),
    ) + "  reclaimable: "@ + bytes_text(total) + "  sort: "@ + sort_label(a.sort) + if a.report.warnings.len()
        == 0 {
        Seq::<char>::empty()
    } else {
        "  warnings: "@ + decimal(a.report.warnings.len() as nat)
    }
}

/// The rows on screen, `offset..end`, for `page` rows.
pub open spec fn table_window(a: App, page: int) -> (int, int) {
    let len = a.report.projects.len() as int;
    let offset = if a.offset < last_row(len as nat) {
        a.offset as int
    } else {
        last_row(len as nat)
    };
    let end = if offset + page < len {
        offset + page
    } else {
        len
    };
    (offset, end)
}

/// Characters left for the path column in a table `width` cells wide.
pub open spec fn path_column(width: u16) -> int {
    if width >= 76 {
        width - 62
    } else {
        14
    }
}

/// The status column of a row.
pub open spec fn status_label(s: ProjectStatus) -> Seq<char> {
    match s {
        ProjectStatus::Idle => ""@,
        ProjectStatus::Cleaning => "cleaning"@,
        ProjectStatus::Cleaned => "cleaned"@,
        ProjectStatus::Failed => "failed"@,
    }
}

/// The footer's position text: `row/rows`, or `0/0` for an empty list.
pub open spec fn position_text(a: App) -> Seq<char> {
    if a.report.projects.len() == 0 {
        "0/0"@
    } else {
        decimal((a.cursor + 1) as nat) + seq!['/'] + decimal(a.report.projects.len() as nat)
    }
}

/// The middle line of the confirmation box.
pub open spec fn confirm_text(a: App, total: u64) -> Seq<char> {
    decimal(count_true(a.selected@)) + " selected, about "@ + bytes_text(total)
        + " reclaimable from target directories."@
}

/// `area` shrunk to at most `width` by `height` cells, leaving a one-cell
/// margin, and centred.
pub open spec fn centered(width: u16, height: u16, area: Area) -> Area {
    let max_w = if area.width >= 2 { area.width - 2 } else { 0 };
    let max_h = if area.height >= 2 { area.height - 2 } else { 0 };
    let w = if width < max_w { width as int } else { max_w as int };
    let h = if height < max_h { height as int } else { max_h as int };
    Area {
        x: (area.x + (area.width - w) / 2) as u16,
        y: (area.y + (area.height - h) / 2) as u16,
        width: w as u16,
        height: h as u16,
    }
}

/// Whether the centred box's corner stays within the cell coordinates.
pub open spec fn centered_fits(width: u16, height: u16, area: Area) -> bool {
    let max_w = if area.width >= 2 { area.width - 2 } else { 0 };
    let max_h = if area.height >= 2 { area.height - 2 } else { 0 };
    let w = if width < max_w { width as int } else { max_w as int };
    let h = if height < max_h { height as int } else { max_h as int };
    area.x + (area.width - w) / 2 <= u16::MAX && area.y + (area.height - h) / 2 <= u16::MAX
}

/// The cells of one table row, apart from the modification time.
pub struct RowCells {
    /// `>` on the cursor's row.
    pub marker: String,
    /// `[x]` or `[ ]`.
    pub checked: String,
    /// The project path, shortened to the column.
    pub path: String,
    pub target: String,
    pub total: String,
    pub status: String,
}

impl App {
    /// The reclaimable total, or `None` when it does not fit in a `u64`.
    pub fn checked_total_reclaimable(&self) -> (total: Option<u64>)
        requires
            self.wf(),
        ensures
            total == reclaimable_total(*self),
    {
        let ghost ps = project_views(self.report.projects@);
        let n = self.selected.len();
        let mut total: u64 = 0;
        let mut i: usize = 0;
        while i < n
            invariant
                i <= n == self.selected.len() == self.report.projects.len(),
                ps == project_views(self.report.projects@),
                total == reclaimable(ps, self.selected@, i as int),
            decreases n - i,
        {
            if self.selected[i] {
                assert(ps[i as int] == self.report.projects@[i as int]@);
                let t = self.report.projects[i].target_size;
                if total > u64::MAX - t {
                    proof {
                        lemma_reclaimable_grows(ps, self.selected@, i + 1, n as int);
                    }
                    return None;
                }
                total = total + t;
            }
            i = i + 1;
        }
        Some(total)
    }

    /// The header text after the program name.
    pub fn header_line(&self, total: u64) -> (line: String)
        ensures
            line@ == header_text(*self, total),
    {
        let mut out: Vec<char> = Vec::new();
        push_str(&mut out, "  ");
        push_decimal(&mut out, self.report.projects.len() as u128);
        push_str(&mut out, " projects  selected: ");
        push_decimal(&mut out, self.selected_count() as u128);
        push_str(&mut out, "  reclaimable: ");
        push_str(&mut out, format_bytes(total).as_str());
        push_str(&mut out, "  sort: ");
        match self.sort {
            SortKey::Size => push_str(&mut out, "target size"),
            SortKey::Modified => push_str(&mut out, "modified date"),
        }
        if self.report.warnings.len() != 0 {
            push_str(&mut out, "  warnings: ");
            push_decimal(&mut out, self.report.warnings.len() as u128);
        }
        chars_to_string(&out)
    }

    /// The rows on screen with `page_size` rows: `offset..end`.
    pub fn visible_rows(&self, page_size: usize) -> (window: (usize, usize))
        requires
            self.wf(),
            page_size <= 65535,
        ensures
            window.0 == table_window(*self, page_size as int).0,
            window.1 == table_window(*self, page_size as int).1,
            window.0 <= self.report.projects.len() || self.report.projects.len() == 0,
            window.1 <= self.report.projects.len(),
    {
        let len = self.report.projects.len();
        let max = if len > 0 { len - 1 } else { 0 };
        let offset = if self.offset < max { self.offset } else { max };
        let end = if offset as u128 + (page_size as u128) < len as u128 {
            offset + page_size
        } else {
            len
        };
        (offset, end)
    }

    /// Characters for the path column in a table `width` cells wide.
    pub fn path_width(width: u16) -> (w: usize)
        ensures
            w == path_column(width),
    {
        if width >= 76 {
            (width - 62) as usize
        } else {
            14
        }
    }

    /// The cells of row `index`, the path fitted into `path_width` characters.
    pub fn row_cells(&self, index: usize, path_width: usize) -> (cells: RowCells)
        requires
            self.wf(),
            index < self.report.projects.len(),
        ensures
            cells.marker@ == (if index == self.cursor { ">"@ } else { " "@ }),
            cells.checked@ == (if self.selected@[index as int] { "[x]"@ } else { "[ ]"@ }),
            cells.path@ == middle_truncated(
                utf8_lossy(display_relative(self.report.projects@[index as int].root@, self.report.scan_root@)),
                path_width as nat,
            ),
            cells.target@ == bytes_text(self.report.projects@[index as int].target_size),
            cells.total@ == bytes_text(self.report.projects@[index as int].total_size),
            cells.status@ == status_label(self.statuses@[index as int]),
    {
        let project = &self.report.projects[index];
        let shown = project.display_path(&self.report.scan_root);
        let shown_text = lossy_text(shown.as_slice());
        RowCells {
            marker: if index == self.cursor { ">".to_owned() } else { " ".to_owned() },
            checked: if self.selected[index] { "[x]".to_owned() } else { "[ ]".to_owned() },
            path: truncate_middle(shown_text.as_str(), path_width),
            target: format_bytes(project.target_size),
            total: format_bytes(project.total_size),
            status: match self.statuses[index] {
                ProjectStatus::Idle => "".to_owned(),
                ProjectStatus::Cleaning => "cleaning".to_owned(),
                ProjectStatus::Cleaned => "cleaned".to_owned(),
                ProjectStatus::Failed => "failed".to_owned(),
            },
        }
    }

    /// The footer's position text.
    pub fn position_line(&self) -> (line: String)
        requires
            self.wf(),
        ensures
            line@ == position_text(*self),
    {
        if self.report.projects.len() == 0 {
            return "0/0".to_owned();
        }
        let mut out: Vec<char> = Vec::new();
        push_decimal(&mut out, (self.cursor + 1) as u128);
        out.push('/');
        push_decimal(&mut out, self.report.projects.len() as u128);
        chars_to_string(&out)
    }

    /// The middle line of the confirmation box.
    pub fn confirm_line(&self, total: u64) -> (line: String)
        ensures
            line@ == confirm_text(*self, total),
    {
        let mut out: Vec<char> = Vec::new();
        push_decimal(&mut out, self.selected_count() as u128);
        push_str(&mut out, " selected, about ");
        push_str(&mut out, format_bytes(total).as_str());
        push_str(&mut out, " reclaimable from target directories.");
        chars_to_string(&out)
    }
}

/// The middle region that `ratatui`'s layout gives an area split top to
/// bottom into a `header`-row band, a list of at least `list_min` rows and a
/// `footer`-row band, as `(x, y, width, height)`.
pub uninterp spec fn middle_of_layout(
    x: u16,
    y: u16,
    width: u16,
    height: u16,
    header: u16,
    list_min: u16,
    footer: u16,
) -> (u16, u16, u16, u16);

/// The middle region of `area` split top to bottom by
/// `ratatui::layout::Layout::split` with the constraints `Length(header)`,
/// `Min(list_min)` and `Length(footer)`. Stated: the region is a function
/// of the area and the three constraints; the solver's arithmetic is left
/// to ratatui.
#[verifier::external_body]
fn table_area(area: Area, header: u16, list_min: u16, footer: u16) -> (r: Area)
    ensures
        (r.x, r.y, r.width, r.height) == middle_of_layout(
            area.x,
            area.y,
            area.width,
            area.height,
            header,
            list_min,
            footer,
        ),
{
    let rect = ratatui::layout::Rect { x: area.x, y: area.y, width: area.width, height: area.height };
    let parts = ratatui::layout::Layout::default()
        .direction(ratatui::layout::Direction::Vertical)
        .constraints([
            ratatui::layout::Constraint::Length(header),
            ratatui::layout::Constraint::Min(list_min),
            ratatui::layout::Constraint::Length(footer),
        ])
        .split(rect);
    Area { x: parts[1].x, y: parts[1].y, width: parts[1].width, height: parts[1].height }
}

/// Rows of the header band of the screen.
pub const HEADER_ROWS: u16 = 3;

/// Fewest rows of the list band of the screen.
pub const LIST_MIN_ROWS: u16 = 8;

/// Rows of the footer band of the screen.
pub const FOOTER_ROWS: u16 = 3;

/// Rows of the list on a screen of `area`: the screen is split top to
/// bottom into a 3-row header, a list of at least 8 rows and a 3-row footer.
pub fn screen_page_size(area: Area) -> (rows: usize)
    ensures
        rows == rows_in(middle_of_layout(area.x, area.y, area.width, area.height, 3, 8, 3).3),
        1 <= rows <= 65532,
{
    App::page_size(table_area(area, HEADER_ROWS, LIST_MIN_ROWS, FOOTER_ROWS))
}

/// Whether a box of `width` by `height` can be centred in `area` within
/// the cell coordinates.
pub fn can_center(width: u16, height: u16, area: Area) -> (r: bool)
    ensures
        r == centered_fits(width, height, area),
{
    let max_w = if area.width >= 2 { area.width - 2 } else { 0 };
    let max_h = if area.height >= 2 { area.height - 2 } else { 0 };
    let w = if width < max_w { width } else { max_w };
    let h = if height < max_h { height } else { max_h };
    (area.x as u32) + (((area.width - w) / 2) as u32) <= 65535 && (area.y as u32) + (((area.height
        - h) / 2) as u32) <= 65535
}

/// A box of at most `width` by `height` cells centred in `area`.
pub fn centered_rect(width: u16, height: u16, area: Area) -> (r: Area)
    requires
        centered_fits(width, height, area),
    ensures
        r == centered(width, height, area),
{
    let max_w = if area.width >= 2 { area.width - 2 } else { 0 };
    let max_h = if area.height >= 2 { area.height - 2 } else { 0 };
    let w = if width < max_w { width } else { max_w };
    let h = if height < max_h { height } else { max_h };
    Area {
        x: area.x + (area.width - w) / 2,
        y: area.y + (area.height - h) / 2,
        width: w,
        height: h,
    }
}


/// Re-sorting keeps the cursor on the project it was on (a project with the
/// same root).
pub proof fn lemma_resort_keeps_cursor_project(a: App, b: App, key: SortKey)
    requires
        a.wf(),
        rows_resorted(a, b, key),
        a.report.projects.len() > 0,
    ensures
        0 <= b.cursor < b.report.projects.len(),
        components(b.report.projects@[b.cursor as int].root@) == components(
            a.report.projects@[a.cursor as int].root@,
        ),
{
    let old_ps = project_views(a.report.projects@);
    let new_ps = project_views(b.report.projects@);
    let c = a.cursor as int;
    lemma_sorting_keeps_projects(new_ps, old_ps, key);
    assert(new_ps.contains(old_ps[c]));
    let k = choose|k: int| 0 <= k < new_ps.len() && new_ps[k] == old_ps[c];
    lemma_first_with_root_found(new_ps, old_ps[c].root, 0, k);
    lemma_first_with_root_bounds(new_ps, old_ps[c].root, 0);
    assert(new_ps[b.cursor as int] == b.report.projects@[b.cursor as int]@);
}

/// Toggling the current project twice restores the selection.
pub proof fn lemma_toggle_current_twice(a: App, b: App, c: App)
    requires
        toggled_current(a, b),
        toggled_current(b, c),
    ensures
        c.selected@ == a.selected@,
{
    if a.cursor < a.selected.len() {
        assert(c.selected@ =~= a.selected@);
    }
}

/// Selecting all or none leaves every project with the same flag: all
/// selected unless all already were.
pub proof fn lemma_toggle_all_is_uniform(a: App, b: App, i: int, j: int)
    requires
        toggled_all(a, b),
        0 <= i < b.selected.len(),
        0 <= j < b.selected.len(),
    ensures
        b.selected@[i] == b.selected@[j],
{
}

/// The reclaimable total of the first `n` projects depends only on the
/// first `n` flags.
proof fn lemma_reclaimable_same_flags(projects: Seq<ProjectView>, s1: Seq<bool>, s2: Seq<bool>, n: int)
    requires
        forall|i: int| 0 <= i < n ==> s1[i] == s2[i],
    ensures
        reclaimable(projects, s1, n) == reclaimable(projects, s2, n),
    decreases n,
{
    if n > 0 {
        lemma_reclaimable_same_flags(projects, s1, s2, n - 1);
    }
}

/// With no project selected, nothing is reclaimable.
pub proof fn lemma_reclaimable_none_selected(projects: Seq<ProjectView>, selected: Seq<bool>, n: int)
    requires
        forall|i: int| 0 <= i < n ==> !selected[i],
    ensures
        reclaimable(projects, selected, n) == 0,
    decreases n,
{
    if n > 0 {
        lemma_reclaimable_none_selected(projects, selected, n - 1);
    }
}

/// Setting the flag of project `k` to `flag` changes the reclaimable total
/// by that project's `target/` size alone: clearing a selected project's
/// flag lowers the total by its size, selecting an unselected one raises
/// it by its size, and leaving the flag as it was changes nothing.
pub proof fn lemma_reclaimable_flag(
    projects: Seq<ProjectView>,
    selected: Seq<bool>,
    n: int,
    k: int,
    flag: bool,
)
    requires
        0 <= k < n <= selected.len(),
    ensures
        reclaimable(projects, selected.update(k, flag), n) + (if selected[k] {
            projects[k].target_size as int
        } else {
            0
        }) == reclaimable(projects, selected, n) + (if flag {
            projects[k].target_size as int
        } else {
            0
        }),
    decreases n,
{
    let upd = selected.update(k, flag);
    if k == n - 1 {
        lemma_reclaimable_same_flags(projects, upd, selected, n - 1);
    } else {
        lemma_reclaimable_flag(projects, selected, n - 1, k, flag);
        assert(upd[n - 1] == selected[n - 1]);
    }
}

/// The `target/` sizes of the first `n` projects added up.
pub open spec fn targets_sum(projects: Seq<ProjectView>, n: int) -> nat
    decreases n,
{
    if n <= 0 {
        0
    } else {
        targets_sum(projects, n - 1) + projects[n - 1].target_size as nat
    }
}

/// With every project selected, all `target/` sizes count.
pub proof fn lemma_reclaimable_all_selected(projects: Seq<ProjectView>, selected: Seq<bool>, n: int)
    requires
        forall|i: int| 0 <= i < n ==> selected[i],
    ensures
        reclaimable(projects, selected, n) == targets_sum(projects, n),
    decreases n,
{
    if n > 0 {
        lemma_reclaimable_all_selected(projects, selected, n - 1);
    }
}

/// The reclaimable total of the selection is the sum of the `target/`
/// sizes of exactly the selected projects: an app with nothing selected
/// reports 0, and one with every project selected reports the sum over
/// all of them.
pub proof fn lemma_reclaimable_total_of_selection(a: App)
    requires
        a.wf(),
    ensures
        (forall|i: int| 0 <= i < a.selected.len() ==> !a.selected@[i]) ==> reclaimable_total(a) == Some(0u64),
        (forall|i: int| 0 <= i < a.selected.len() ==> a.selected@[i]) ==> reclaimable(
            project_views(a.report.projects@),
            a.selected@,
            a.selected.len() as int,
        ) == targets_sum(project_views(a.report.projects@), a.selected.len() as int),
{
    let ps = project_views(a.report.projects@);
    let n = a.selected.len() as int;
    if forall|i: int| 0 <= i < n ==> !a.selected@[i] {
        lemma_reclaimable_none_selected(ps, a.selected@, n);
    }
    if forall|i: int| 0 <= i < n ==> a.selected@[i] {
        lemma_reclaimable_all_selected(ps, a.selected@, n);
    }
}

/// The cursor keys in browsing mode: Up (like `k`) moves one row up and
/// Down (like `j`) one row down, Page Up and Page Down move a page, Home
/// and End go to the first and last rows; the cursor stops at either end
/// of the list, and only the cursor and the first row on screen change.
pub proof fn lemma_cursor_keys(a: App, b: App, key: KeyInput, page: int, outcome: KeyOutcome)
    requires
        a.wf(),
        a.mode == Mode::Browsing,
        !key.release,
        key_effect(a, b, key, page, outcome),
        0 <= page,
        a.cursor + page <= usize::MAX,
    ensures
        key.code == KeyCode::Up || key.code == KeyCode::Char('k') ==> outcome == KeyOutcome::Continue
            && b.cursor == (if a.cursor == 0 {
            0
        } else {
            a.cursor - 1
        }) && b.cursor <= a.cursor && same_rows(a, b),
        key.code == KeyCode::Down || key.code == KeyCode::Char('j') ==> outcome == KeyOutcome::Continue
            && b.cursor == (if a.cursor < last_row(a.report.projects.len() as nat) {
            a.cursor + 1
        } else {
            a.cursor as int
        }) && b.cursor >= a.cursor && same_rows(a, b),
        key.code == KeyCode::PageUp ==> outcome == KeyOutcome::Continue && b.cursor == (if a.cursor
            < page {
            0
        } else {
            a.cursor - page
        }) && same_rows(a, b),
        key.code == KeyCode::PageDown ==> outcome == KeyOutcome::Continue && b.cursor == (if a.cursor
            + page < last_row(a.report.projects.len() as nat) {
            a.cursor + page
        } else {
            last_row(a.report.projects.len() as nat)
        }) && same_rows(a, b),
        key.code == KeyCode::Home ==> outcome == KeyOutcome::Continue && b.cursor == 0 && same_rows(
            a,
            b,
        ),
        key.code == KeyCode::End ==> outcome == KeyOutcome::Continue && b.cursor == last_row(
            a.report.projects.len() as nat,
        ) && same_rows(a, b),
{
}

/// Up and `k` do the same; so do Down and `j`.
pub proof fn lemma_arrow_keys_match_letters(
    a: App,
    b: App,
    control: bool,
    page: int,
    outcome: KeyOutcome,
)
    ensures
        key_effect(a, b, KeyInput { code: KeyCode::Up, control, release: false }, page, outcome)
            <==> key_effect(a, b, KeyInput { code: KeyCode::Char('k'), control, release: false }, page, outcome),
        key_effect(a, b, KeyInput { code: KeyCode::Down, control, release: false }, page, outcome)
            <==> key_effect(a, b, KeyInput { code: KeyCode::Char('j'), control, release: false }, page, outcome),
{
}

} // verus!
