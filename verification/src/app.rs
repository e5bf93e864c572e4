//! The application's state and how it reacts to keys and to the results of
//! background work.
//!
//! The [`App`] decides; it never waits. A key gives the next state and a
//! [`Command`] for the driver to carry out (start a scan, start deleting,
//! free memory); the driver hands each result back as an [`Event`].
use vstd::prelude::*;
use crate::clean::{entry_freeable, record_views, selected_freeable, selected_total, Progress, ProgressView};
use crate::mem::MemStats;
use crate::scan::{checked_deletable_total, CategoryEntry, EntryView};
use crate::ui::{human_size, human_size_text};

verus! {

#[derive(Clone, Copy, PartialEq, Eq, Structural)]
pub enum Panel {
    Junk,
    Memory,
}

#[derive(Clone, Copy, PartialEq, Eq, Structural)]
pub enum Focus {
    Sidebar,
    Main,
}

/// A key press, as far as the application tells keys apart.
#[derive(Clone, Copy, PartialEq, Eq, Structural)]
pub enum Key {
    Char(char),
    Tab,
    Up,
    Down,
    Right,
    Enter,
    Other,
}

pub enum JunkState {
    Blank,
    Scanning,
    Review { entries: Vec<CategoryEntry>, cursor: usize, confirm: bool },
    Cleaning { current: String, done_bytes: u64, total_bytes: u64 },
    Summary { freed: u64, per_category: Vec<(&'static str, u64)> },
}

pub enum JunkView {
    Blank,
    Scanning,
    Review { entries: Seq<EntryView>, cursor: usize, confirm: bool },
    Cleaning { current: Seq<char>, done_bytes: u64, total_bytes: u64 },
    Summary { freed: u64, per_category: Seq<(Seq<char>, u64)> },
}

/// The views of a sequence of entries.
pub open spec fn entry_views(v: Seq<CategoryEntry>) -> Seq<EntryView> {
    v.map_values(|e: CategoryEntry| e@)
}

impl View for JunkState {
    type V = JunkView;

    open spec fn view(&self) -> JunkView {
        match self {
            JunkState::Blank => JunkView::Blank,
            JunkState::Scanning => JunkView::Scanning,
            JunkState::Review { entries, cursor, confirm } => JunkView::Review {
                entries: entry_views(entries@),
                cursor: *cursor,
                confirm: *confirm,
            },
            JunkState::Cleaning { current, done_bytes, total_bytes } => JunkView::Cleaning {
                current: current@,
                done_bytes: *done_bytes,
                total_bytes: *total_bytes,
            },
            JunkState::Summary { freed, per_category } => JunkView::Summary {
                freed: *freed,
                per_category: record_views(per_category@),
            },
        }
    }
}

/// The memory panel: the latest sample, the last status line, and whether a
/// memory purge is under way.
pub struct MemState {
    pub stats: MemStats,
    pub status: Option<String>,
    freeing: bool,
}

pub struct MemView {
    pub stats: MemStats,
    pub status: Option<Seq<char>>,
    pub freeing: bool,
}

impl View for MemState {
    type V = MemView;

    closed spec fn view(&self) -> MemView {
        MemView {
            stats: self.stats,
            status: match self.status {
                Some(s) => Some(s@),
                None => None,
            },
            freeing: self.freeing,
        }
    }
}

impl MemState {
    /// Whether a memory purge is under way.
    pub fn is_freeing(&self) -> (r: bool)
        ensures
            r == self@.freeing,
    {
        self.freeing
    }
}

pub struct App {
    pub panel: Panel,
    pub focus: Focus,
    pub junk: JunkState,
    pub mem: MemState,
    pub status: String,
    pub dry_run: bool,
    pub should_quit: bool,
}

pub struct AppView {
    pub panel: Panel,
    pub focus: Focus,
    pub junk: JunkView,
    pub mem: MemView,
    pub status: Seq<char>,
    pub dry_run: bool,
    pub should_quit: bool,
}

impl View for App {
    type V = AppView;

    open spec fn view(&self) -> AppView {
        AppView {
            panel: self.panel,
            focus: self.focus,
            junk: self.junk@,
            mem: self.mem@,
            status: self.status@,
            dry_run: self.dry_run,
            should_quit: self.should_quit,
        }
    }
}

/// What the driver is asked to do after a key.
pub enum Command {
    Nothing,
    /// Scan all categories in the background; report with [`Event::ScanDone`].
    StartScan,
    /// Delete the selected categories of `entries` in the background (a
    /// [`crate::clean::Deletion`]); report with [`Event::Progress`].
    StartDelete { entries: Vec<CategoryEntry>, dry_run: bool },
    /// Purge memory in the background; report with [`Event::FreeUpDone`].
    FreeUp,
}

pub enum CommandView {
    Nothing,
    StartScan,
    StartDelete { entries: Seq<EntryView>, dry_run: bool },
    FreeUp,
}

impl View for Command {
    type V = CommandView;

    open spec fn view(&self) -> CommandView {
        match self {
            Command::Nothing => CommandView::Nothing,
            Command::StartScan => CommandView::StartScan,
            Command::StartDelete { entries, dry_run } => CommandView::StartDelete {
                entries: entry_views(entries@),
                dry_run: *dry_run,
            },
            Command::FreeUp => CommandView::FreeUp,
        }
    }
}

/// A result of background work, handed back by the driver.
pub enum Event {
    /// A scan finished with these entries.
    ScanDone(Vec<CategoryEntry>),
    /// A running deletion reported progress.
    Progress(Progress),
    /// A new memory sample was taken.
    MemSample(MemStats),
    /// A memory purge finished, or failed with this message.
    FreeUpDone(Result<(), String>),
}

pub enum EventView {
    ScanDone(Seq<EntryView>),
    Progress(ProgressView),
    MemSample(MemStats),
    FreeUpDone(Result<(), Seq<char>>),
}

impl View for Event {
    type V = EventView;

    open spec fn view(&self) -> EventView {
        match self {
            Event::ScanDone(entries) => EventView::ScanDone(entry_views(entries@)),
            Event::Progress(p) => EventView::Progress(p@),
            Event::MemSample(s) => EventView::MemSample(*s),
            Event::FreeUpDone(r) => EventView::FreeUpDone(
                match r {
                    Ok(()) => Ok(()),
                    Err(e) => Err(e@),
                },
            ),
        }
    }
}

/// The sum of the totals of all entries, selected or not.
pub open spec fn entries_total(entries: Seq<EntryView>) -> nat
    decreases entries.len(),
{
    if entries.len() == 0 {
        0
    } else {
        entries_total(entries.drop_last()) + entries.last().total_size as nat
    }
}

/// The most deleting all entries could free, selected or not.
pub open spec fn entries_freeable(entries: Seq<EntryView>) -> nat
    decreases entries.len(),
{
    if entries.len() == 0 {
        0
    } else {
        entries_freeable(entries.drop_last()) + entry_freeable(entries.last())
    }
}

/// Scan results the review can hold: their totals, and what deleting them
/// could free, each fit in a `u64` whatever is selected.
pub open spec fn scan_result_wf(entries: Seq<EntryView>) -> bool {
    &&& entries_total(entries) <= u64::MAX
    &&& entries_freeable(entries) <= u64::MAX
}

/// What the application keeps true: under review, the cursor is on an entry
/// (or 0 when there is none), the entries' sizes can be counted, and a pending
/// confirmation always has something selected to delete.
pub open spec fn app_wf(s: AppView) -> bool {
    s.junk matches JunkView::Review { entries, cursor, confirm } ==> {
        &&& scan_result_wf(entries)
        &&& cursor < entries.len() || (entries.len() == 0 && cursor == 0)
        &&& confirm ==> selected_total(entries) > 0
    }
}

pub open spec fn other_focus(f: Focus) -> Focus {
    match f {
        Focus::Sidebar => Focus::Main,
        Focus::Main => Focus::Sidebar,
    }
}

pub open spec fn other_panel(p: Panel) -> Panel {
    match p {
        Panel::Junk => Panel::Memory,
        Panel::Memory => Panel::Junk,
    }
}

/// Whether a delete confirmation is pending.
pub open spec fn confirming(s: AppView) -> bool {
    s.junk matches JunkView::Review { confirm, .. } && confirm
}

/// A scan starts: the junk panel shows the scan under way.
pub open spec fn start_scan(s: AppView) -> (AppView, CommandView) {
    (AppView { junk: JunkView::Scanning, status: "Scanning..."@, ..s }, CommandView::StartScan)
}

/// The entry with its selection flipped.
pub open spec fn toggled(e: EntryView) -> EntryView {
    EntryView { selected: !e.selected, ..e }
}

/// The status line that asks for a delete confirmation.
pub open spec fn delete_prompt(total: nat) -> Seq<char> {
    "Delete "@ + human_size_text(total) + "? [y/N]"@
}

/// A key on the junk panel with the main area focused.
pub open spec fn junk_key(s: AppView, k: Key) -> (AppView, CommandView) {
    match s.junk {
        JunkView::Blank => if k == Key::Char('s') {
            start_scan(s)
        } else {
            (s, CommandView::Nothing)
        },
        JunkView::Scanning => (s, CommandView::Nothing),
        JunkView::Cleaning { .. } => (s, CommandView::Nothing),
        JunkView::Review { entries, cursor, confirm } => if confirm {
            if k == Key::Char('y') || k == Key::Char('Y') {
                (
                    AppView {
                        junk: JunkView::Cleaning { current: Seq::empty(), done_bytes: 0, total_bytes: 1 },
                        status: "Cleaning..."@,
                        ..s
                    },
                    CommandView::StartDelete { entries, dry_run: s.dry_run },
                )
            } else {
                (
                    AppView {
                        junk: JunkView::Review { entries, cursor, confirm: false },
                        status: "Cancelled."@,
                        ..s
                    },
                    CommandView::Nothing,
                )
            }
        } else if k == Key::Up {
            let c: usize = if cursor > 0 { (cursor - 1) as usize } else { cursor };
            (AppView { junk: JunkView::Review { entries, cursor: c, confirm }, ..s }, CommandView::Nothing)
        } else if k == Key::Down {
            let c: usize = if cursor + 1 < entries.len() { (cursor + 1) as usize } else { cursor };
            (AppView { junk: JunkView::Review { entries, cursor: c, confirm }, ..s }, CommandView::Nothing)
        } else if k == Key::Char(' ') {
            let e = if cursor < entries.len() {
                entries.update(cursor as int, toggled(entries[cursor as int]))
            } else {
                entries
            };
            (AppView { junk: JunkView::Review { entries: e, cursor, confirm }, ..s }, CommandView::Nothing)
        } else if k == Key::Char('c') {
            let total = selected_total(entries);
            if total > 0 {
                (
                    AppView {
                        junk: JunkView::Review { entries, cursor, confirm: true },
                        status: delete_prompt(total),
                        ..s
                    },
                    CommandView::Nothing,
                )
            } else {
                (s, CommandView::Nothing)
            }
        } else {
            (s, CommandView::Nothing)
        },
        JunkView::Summary { .. } => start_scan(AppView { junk: JunkView::Blank, ..s }),
    }
}

/// The status shown while memory is being freed.
pub open spec fn freeing_status() -> Seq<char> {
    "Freeing memory (sudo password may be required in this terminal)..."@
}

/// A key on the memory panel with the main area focused: 'p' frees memory
/// unless that is already under way.
pub open spec fn memory_key(s: AppView, k: Key) -> (AppView, CommandView) {
    if k == Key::Char('p') && !s.mem.freeing {
        (
            AppView { mem: MemView { status: Some(freeing_status()), freeing: true, ..s.mem }, ..s },
            CommandView::FreeUp,
        )
    } else {
        (s, CommandView::Nothing)
    }
}

/// How the application reacts to a key: 'q' quits unless a delete
/// confirmation is pending; Tab switches focus; with the sidebar focused,
/// Up/Down switch panel and Enter/Right focus the main area; otherwise the
/// key goes to the shown panel.
pub open spec fn key_step(s: AppView, k: Key) -> (AppView, CommandView) {
    if k == Key::Char('q') && !confirming(s) {
        (AppView { should_quit: true, ..s }, CommandView::Nothing)
    } else if k == Key::Tab {
        (AppView { focus: other_focus(s.focus), ..s }, CommandView::Nothing)
    } else if s.focus == Focus::Sidebar {
        if k == Key::Up || k == Key::Down {
            (AppView { panel: other_panel(s.panel), ..s }, CommandView::Nothing)
        } else if k == Key::Enter || k == Key::Right {
            (AppView { focus: Focus::Main, ..s }, CommandView::Nothing)
        } else {
            (s, CommandView::Nothing)
        }
    } else if s.panel == Panel::Junk {
        junk_key(s, k)
    } else {
        memory_key(s, k)
    }
}

/// The status shown once a scan's results are under review.
pub open spec fn review_status() -> Seq<char> {
    "space: toggle  ·  [c] clean  ·  Tab: sidebar"@
}

/// How the application takes the result of background work: scan results
/// are reviewed (when a scan is under way), deletion progress is shown and
/// its final report summarized (when a deletion is under way), memory
/// samples are shown, and a purge's outcome becomes the memory status (when
/// one is under way). A result that arrives in another state changes nothing.
pub open spec fn event_step(s: AppView, e: EventView) -> AppView {
    match e {
        EventView::ScanDone(entries) => if s.junk is Scanning {
            AppView { junk: JunkView::Review { entries, cursor: 0, confirm: false }, status: review_status(), ..s }
        } else {
            s
        },
        EventView::Progress(p) => if s.junk is Cleaning {
            match p {
                ProgressView::Item { path, done_bytes, total_bytes } => AppView {
                    junk: JunkView::Cleaning { current: path, done_bytes, total_bytes },
                    ..s
                },
                ProgressView::Done { per_category, total_freed } => AppView {
                    junk: JunkView::Summary { freed: total_freed, per_category },
                    ..s
                },
            }
        } else {
            s
        },
        EventView::MemSample(stats) => AppView { mem: MemView { stats, ..s.mem }, ..s },
        EventView::FreeUpDone(r) => if s.mem.freeing {
            let status = match r {
                Ok(()) => "Memory freed."@,
                Err(msg) => "purge failed: "@ + msg,
            };
            AppView { mem: MemView { status: Some(status), freeing: false, ..s.mem }, ..s }
        } else {
            s
        },
    }
}

/// The events a driver may hand back: scan results must have sizes that
/// can be counted in a `u64` (see [`scan_result_ok`]).
pub open spec fn event_wf(e: EventView) -> bool {
    e matches EventView::ScanDone(entries) ==> scan_result_wf(entries)
}

/// 'q' never starts anything; it quits exactly when no delete confirmation
/// is pending, and a pending confirmation is never answered by quitting.
pub proof fn lemma_quit_only_without_pending_confirmation(s: AppView)
    ensures
        key_step(s, Key::Char('q')).1 is Nothing,
        !confirming(s) ==> key_step(s, Key::Char('q')).0.should_quit,
        confirming(s) ==> key_step(s, Key::Char('q')).0.should_quit == s.should_quit,
{
}

/// A deletion starts only from a pending confirmation answered with 'y' or
/// 'Y', on exactly the reviewed entries, with something selected, with the
/// application's dry-run setting, and with entries a deletion can take.
pub proof fn lemma_delete_only_after_confirmation(s: AppView, k: Key)
    requires
        app_wf(s),
    ensures
        key_step(s, k).1 matches CommandView::StartDelete { entries, dry_run } ==> {
            &&& confirming(s)
            &&& k == Key::Char('y') || k == Key::Char('Y')
            &&& s.junk matches JunkView::Review { entries: reviewed, .. } && reviewed == entries
            &&& dry_run == s.dry_run
            &&& selected_total(entries) > 0
            &&& selected_total(entries) <= u64::MAX
            &&& selected_freeable(entries) <= u64::MAX
        },
{
    if let JunkView::Review { entries, .. } = s.junk {
        lemma_selected_le_entries_total(entries);
    }
}

/// A pending confirmation is settled by the next key the junk panel takes:
/// it either starts the deletion or is cancelled.
pub proof fn lemma_confirmation_settled_by_next_key(s: AppView, k: Key)
    requires
        confirming(s),
        s.focus == Focus::Main,
        s.panel == Panel::Junk,
        k != Key::Tab,
    ensures
        !confirming(key_step(s, k).0),
        (key_step(s, k).1 is StartDelete) == (k == Key::Char('y') || k == Key::Char('Y')),
{
}

/// Tab twice gives the focus back and changes nothing else.
pub proof fn lemma_tab_twice(s: AppView)
    ensures
        key_step(key_step(s, Key::Tab).0, Key::Tab).0 == s,
        key_step(s, Key::Tab).1 is Nothing,
{
    match s.focus {
        Focus::Sidebar => {},
        Focus::Main => {},
    }
}

/// Space twice on the review leaves the selection as it was.
pub proof fn lemma_toggle_twice(s: AppView)
    requires
        s.focus == Focus::Main,
        s.panel == Panel::Junk,
        s.junk is Review,
        !confirming(s),
    ensures
        key_step(key_step(s, Key::Char(' ')).0, Key::Char(' ')).0 == s,
{
    if let JunkView::Review { entries, cursor, confirm } = s.junk {
        if cursor < entries.len() {
            let once = entries.update(cursor as int, toggled(entries[cursor as int]));
            let twice = once.update(cursor as int, toggled(once[cursor as int]));
            assert(toggled(toggled(entries[cursor as int])) == entries[cursor as int]);
            assert(twice =~= entries);
        }
    }
}

/// Memory is purged by one background job at a time: a purge starts only
/// when none is under way, and marks one as under way.
pub proof fn lemma_one_purge_at_a_time(s: AppView, k: Key)
    ensures
        key_step(s, k).1 is FreeUp ==> !s.mem.freeing && key_step(s, k).0.mem.freeing,
{
}

/// The main area of the junk panel is focused with entries under review and
/// no confirmation pending.
pub open spec fn reviewing(s: AppView) -> bool {
    &&& s.focus == Focus::Main
    &&& s.panel == Panel::Junk
    &&& s.junk matches JunkView::Review { confirm, .. } && !confirm
}

/// Under review, Down moves the cursor to the next entry when there is one
/// and leaves it otherwise; Up moves it to the previous entry when there is
/// one and leaves it otherwise. Nothing else changes.
pub proof fn lemma_cursor_moves_by_one(s: AppView)
    requires
        reviewing(s),
    ensures
        ({
            let (d, dc) = key_step(s, Key::Down);
            let (u, uc) = key_step(s, Key::Up);
            &&& s.junk matches JunkView::Review { entries, cursor, confirm } && {
                &&& d == (AppView {
                    junk: JunkView::Review {
                        entries,
                        cursor: if cursor + 1 < entries.len() { (cursor + 1) as usize } else { cursor },
                        confirm,
                    },
                    ..s
                })
                &&& u == (AppView {
                    junk: JunkView::Review {
                        entries,
                        cursor: if cursor > 0 { (cursor - 1) as usize } else { cursor },
                        confirm,
                    },
                    ..s
                })
            }
            &&& dc is Nothing
            &&& uc is Nothing
        }),
{
}

/// Under review, space flips the selection of the entry under the cursor
/// only, and keeps everything else; with no entry under the cursor it
/// changes nothing.
pub proof fn lemma_space_flips_one_entry(s: AppView)
    requires
        reviewing(s),
    ensures
        key_step(s, Key::Char(' ')).1 is Nothing,
        s.junk matches JunkView::Review { entries, cursor, .. } ==> {
            let t = key_step(s, Key::Char(' ')).0;
            &&& t.status == s.status
            &&& t.junk matches JunkView::Review { entries: e2, cursor: c2, confirm: f2 } && {
                &&& c2 == cursor
                &&& !f2
                &&& e2.len() == entries.len()
                &&& forall|i: int| 0 <= i < entries.len() && i != cursor ==> #[trigger] e2[i] == entries[i]
                &&& cursor < entries.len() ==> {
                    &&& e2[cursor as int].selected == !entries[cursor as int].selected
                    &&& e2[cursor as int].category == entries[cursor as int].category
                    &&& e2[cursor as int].items == entries[cursor as int].items
                    &&& e2[cursor as int].total_size == entries[cursor as int].total_size
                    &&& e2[cursor as int].skipped_running == entries[cursor as int].skipped_running
                }
            }
        },
{
}

/// Under review, 'c' asks for confirmation exactly when something is
/// selected, showing the selected size; with nothing selected it changes
/// nothing.
pub proof fn lemma_clean_asks_for_confirmation(s: AppView)
    requires
        reviewing(s),
    ensures
        key_step(s, Key::Char('c')).1 is Nothing,
        s.junk matches JunkView::Review { entries, cursor, .. } ==> {
            let t = key_step(s, Key::Char('c')).0;
            if selected_total(entries) > 0 {
                &&& t.junk == JunkView::Review { entries, cursor, confirm: true }
                &&& t.status == "Delete "@ + human_size_text(selected_total(entries)) + "? [y/N]"@
                &&& t.panel == s.panel && t.focus == s.focus && t.mem == s.mem
                &&& t.should_quit == s.should_quit && t.dry_run == s.dry_run
            } else {
                t == s
            }
        },
{
}

/// With a confirmation pending on the focused junk panel, 'y' or 'Y' starts
/// deleting the reviewed entries and shows the cleaning progress from zero;
/// any other key but Tab cancels, keeping the entries and the cursor.
pub proof fn lemma_confirmation_answers(s: AppView, k: Key)
    requires
        s.focus == Focus::Main,
        s.panel == Panel::Junk,
        confirming(s),
        k != Key::Tab,
    ensures
        s.junk matches JunkView::Review { entries, cursor, .. } ==> {
            let (t, c) = key_step(s, k);
            if k == Key::Char('y') || k == Key::Char('Y') {
                &&& c == CommandView::StartDelete { entries, dry_run: s.dry_run }
                &&& t.junk == JunkView::Cleaning { current: Seq::empty(), done_bytes: 0, total_bytes: 1 }
                &&& t.status == "Cleaning..."@
                &&& t.should_quit == s.should_quit
            } else {
                &&& c is Nothing
                &&& t.junk == JunkView::Review { entries, cursor, confirm: false }
                &&& t.status == "Cancelled."@
                &&& t.should_quit == s.should_quit
            }
        },
{
}

/// On the focused junk panel: with nothing scanned, 's' starts a scan and
/// other keys do nothing; after a summary any key starts a new scan; while a
/// scan or a deletion runs, keys do nothing.
pub proof fn lemma_junk_panel_idle_keys(s: AppView, k: Key)
    requires
        s.focus == Focus::Main,
        s.panel == Panel::Junk,
        k != Key::Tab,
        k != Key::Char('q'),
    ensures
        s.junk is Blank && k == Key::Char('s') ==> key_step(s, k) == (
            AppView { junk: JunkView::Scanning, status: "Scanning..."@, ..s },
            CommandView::StartScan,
        ),
        s.junk is Blank && k != Key::Char('s') ==> key_step(s, k) == (s, CommandView::Nothing),
        s.junk is Summary ==> key_step(s, k) == (
            AppView { junk: JunkView::Scanning, status: "Scanning..."@, ..s },
            CommandView::StartScan,
        ),
        (s.junk is Scanning || s.junk is Cleaning) ==> key_step(s, k) == (s, CommandView::Nothing),
{
}

/// With the sidebar focused, Up and Down switch between the two panels,
/// Enter and Right focus the main area, and other keys (but 'q' and Tab)
/// do nothing; the junk state is never touched.
pub proof fn lemma_sidebar_keys(s: AppView, k: Key)
    requires
        s.focus == Focus::Sidebar,
        k != Key::Tab,
        k != Key::Char('q'),
    ensures
        key_step(s, k).1 is Nothing,
        key_step(s, k).0.junk == s.junk,
        (k == Key::Up || k == Key::Down) ==> key_step(s, k).0 == (AppView {
            panel: if s.panel == Panel::Junk { Panel::Memory } else { Panel::Junk },
            ..s
        }),
        (k == Key::Enter || k == Key::Right) ==> key_step(s, k).0 == (AppView { focus: Focus::Main, ..s }),
        !(k == Key::Up || k == Key::Down || k == Key::Enter || k == Key::Right) ==> key_step(s, k).0 == s,
{
}

/// On the focused memory panel, 'p' starts a purge and says so when none is
/// under way; every other key (but 'q' and Tab), and 'p' during a purge,
/// changes nothing.
pub proof fn lemma_memory_panel_keys(s: AppView, k: Key)
    requires
        s.focus == Focus::Main,
        s.panel == Panel::Memory,
        k != Key::Tab,
        k != Key::Char('q'),
    ensures
        k == Key::Char('p') && !s.mem.freeing ==> key_step(s, k) == (
            AppView {
                mem: MemView {
                    status: Some("Freeing memory (sudo password may be required in this terminal)..."@),
                    freeing: true,
                    ..s.mem
                },
                ..s
            },
            CommandView::FreeUp,
        ),
        !(k == Key::Char('p') && !s.mem.freeing) ==> key_step(s, k) == (s, CommandView::Nothing),
{
}

/// Tab always switches the focus and nothing else, and 'q' without a pending
/// confirmation sets only the quit flag.
pub proof fn lemma_tab_and_quit(s: AppView)
    ensures
        key_step(s, Key::Tab) == (
            AppView { focus: if s.focus == Focus::Sidebar { Focus::Main } else { Focus::Sidebar }, ..s },
            CommandView::Nothing,
        ),
        !confirming(s) ==> key_step(s, Key::Char('q')) == (AppView { should_quit: true, ..s }, CommandView::Nothing),
{
}

/// Background results: scan results are taken for review (cursor on the
/// first entry, nothing pending) only while a scan runs; deletion progress
/// is shown, and its final report summarized, only while a deletion runs; a
/// memory sample always replaces the shown one; a purge's outcome becomes
/// the memory status only while a purge runs. Nothing else changes.
pub proof fn lemma_events(s: AppView, e: EventView)
    ensures
        e matches EventView::ScanDone(entries) ==> event_step(s, e) == if s.junk is Scanning {
            AppView {
                junk: JunkView::Review { entries, cursor: 0, confirm: false },
                status: "space: toggle  \u{b7}  [c] clean  \u{b7}  Tab: sidebar"@,
                ..s
            }
        } else {
            s
        },
        e matches EventView::Progress(ProgressView::Item { path, done_bytes, total_bytes }) ==> event_step(s, e)
            == if s.junk is Cleaning {
            AppView { junk: JunkView::Cleaning { current: path, done_bytes, total_bytes }, ..s }
        } else {
            s
        },
        e matches EventView::Progress(ProgressView::Done { per_category, total_freed }) ==> event_step(s, e)
            == if s.junk is Cleaning {
            AppView { junk: JunkView::Summary { freed: total_freed, per_category }, ..s }
        } else {
            s
        },
        e matches EventView::MemSample(stats) ==> event_step(s, e) == (AppView {
            mem: MemView { stats, ..s.mem },
            ..s
        }),
        e matches EventView::FreeUpDone(r) ==> event_step(s, e) == if s.mem.freeing {
            AppView {
                mem: MemView {
                    status: Some(
                        match r {
                            Ok(()) => "Memory freed."@,
                            Err(msg) => "purge failed: "@ + msg,
                        },
                    ),
                    freeing: false,
                    ..s.mem
                },
                ..s
            }
        } else {
            s
        },
{
}

proof fn lemma_entries_total_prefix(entries: Seq<EntryView>, k: int)
    requires
        0 <= k <= entries.len(),
    ensures
        entries_total(entries.take(k)) <= entries_total(entries),
        entries_freeable(entries.take(k)) <= entries_freeable(entries),
        selected_total(entries.take(k)) <= selected_total(entries),
    decreases entries.len() - k,
{
    if k < entries.len() {
        lemma_entries_total_prefix(entries, k + 1);
        assert(entries.take(k + 1).drop_last() =~= entries.take(k));
    } else {
        assert(entries.take(k) =~= entries);
    }
}

proof fn lemma_selected_le_entries_total(entries: Seq<EntryView>)
    ensures
        selected_total(entries) <= entries_total(entries),
        selected_freeable(entries) <= entries_freeable(entries),
    decreases entries.len(),
{
    if entries.len() > 0 {
        lemma_selected_le_entries_total(entries.drop_last());
    }
}

/// Changing an entry's selection keeps every total but its own selected
/// share.
proof fn lemma_update_keeps_totals(entries: Seq<EntryView>, i: int, x: EntryView)
    requires
        0 <= i < entries.len(),
        x.total_size == entries[i].total_size,
        x.category == entries[i].category,
        x.items == entries[i].items,
    ensures
        entries_total(entries.update(i, x)) == entries_total(entries),
        entries_freeable(entries.update(i, x)) == entries_freeable(entries),
    decreases entries.len(),
{
    let u = entries.update(i, x);
    if i < entries.len() - 1 {
        lemma_update_keeps_totals(entries.drop_last(), i, x);
        assert(u.drop_last() =~= entries.drop_last().update(i, x));
    } else {
        assert(u.drop_last() =~= entries.drop_last());
    }
}

/// Whether scan results can be reviewed: their totals, and what deleting
/// them could free, each fit in a `u64`.
pub fn scan_result_ok(entries: &Vec<CategoryEntry>) -> (r: bool)
    ensures
        r == scan_result_wf(entry_views(entries@)),
{
    let ghost all = entry_views(entries@);
    let mut total: u64 = 0;
    let mut free: u64 = 0;
    let mut i: usize = 0;
    while i < entries.len()
        invariant
            i <= entries@.len(),
            all == entry_views(entries@),
            total == entries_total(all.take(i as int)),
            free == entries_freeable(all.take(i as int)),
        decreases entries@.len() - i,
    {
        let e = &entries[i];
        proof {
            assert(all[i as int] == e@);
            assert(all.take(i + 1).drop_last() =~= all.take(i as int));
            lemma_entries_total_prefix(all, i + 1);
        }
        let f = if e.category.deletes_via_command() {
            e.total_size
        } else {
            match checked_deletable_total(e.items.as_slice()) {
                Some(f) => f,
                None => {
                    return false;
                },
            }
        };
        match total.checked_add(e.total_size) {
            Some(t) => total = t,
            None => {
                return false;
            },
        }
        match free.checked_add(f) {
            Some(t) => free = t,
            None => {
                return false;
            },
        }
        i = i + 1;
    }
    assert(all.take(entries@.len() as int) =~= all);
    true
}

impl App {
    /// The application as it starts: the junk panel focused from the
    /// sidebar, nothing scanned yet, and the first memory sample shown.
    pub fn new(dry_run: bool, stats: MemStats) -> (r: Self)
        ensures
            r@ == (AppView {
                panel: Panel::Junk,
                focus: Focus::Sidebar,
                junk: JunkView::Blank,
                mem: MemView { stats, status: None, freeing: false },
                status: "Tab: switch focus  ·  [s] scan  ·  [q] quit"@,
                dry_run,
                should_quit: false,
            }),
            app_wf(r@),
    {
        App {
            panel: Panel::Junk,
            focus: Focus::Sidebar,
            junk: JunkState::Blank,
            mem: MemState { stats, status: None, freeing: false },
            status: String::from_str("Tab: switch focus  ·  [s] scan  ·  [q] quit"),
            dry_run,
            should_quit: false,
        }
    }

    /// Reacts to a key (see [`key_step`]) and returns what the driver is to
    /// start.
    pub fn on_key(&mut self, key: Key) -> (cmd: Command)
        requires
            app_wf(old(self)@),
        ensures
            (final(self)@, cmd@) == key_step(old(self)@, key),
            app_wf(final(self)@),
    {
        let confirm_pending = match &self.junk {
            JunkState::Review { confirm, .. } => *confirm,
            _ => false,
        };
        if key == Key::Char('q') && !confirm_pending {
            self.should_quit = true;
            return Command::Nothing;
        }
        if key == Key::Tab {
            self.focus = match self.focus {
                Focus::Sidebar => Focus::Main,
                Focus::Main => Focus::Sidebar,
            };
            return Command::Nothing;
        }
        if self.focus == Focus::Sidebar {
            if key == Key::Up || key == Key::Down {
                self.panel = match self.panel {
                    Panel::Junk => Panel::Memory,
                    Panel::Memory => Panel::Junk,
                };
            } else if key == Key::Enter || key == Key::Right {
                self.focus = Focus::Main;
            }
            return Command::Nothing;
        }
        match self.panel {
            Panel::Junk => self.on_key_junk(key),
            Panel::Memory => self.on_key_memory(key),
        }
    }

    fn on_key_junk(&mut self, key: Key) -> (cmd: Command)
        requires
            app_wf(old(self)@),
        ensures
            (final(self)@, cmd@) == junk_key(old(self)@, key),
            app_wf(final(self)@),
    {
        let ghost s = self@;
        let mut junk = JunkState::Blank;
        std::mem::swap(&mut junk, &mut self.junk);
        match junk {
            JunkState::Blank => {
                if key == Key::Char('s') {
                    self.junk = JunkState::Scanning;
                    self.status = String::from_str("Scanning...");
                    Command::StartScan
                } else {
                    self.junk = JunkState::Blank;
                    Command::Nothing
                }
            },
            JunkState::Scanning => {
                self.junk = JunkState::Scanning;
                Command::Nothing
            },
            JunkState::Cleaning { current, done_bytes, total_bytes } => {
                self.junk = JunkState::Cleaning { current, done_bytes, total_bytes };
                Command::Nothing
            },
            JunkState::Summary { .. } => {
                self.junk = JunkState::Scanning;
                self.status = String::from_str("Scanning...");
                Command::StartScan
            },
            JunkState::Review { entries, cursor, confirm } => {
                if confirm {
                    if key == Key::Char('y') || key == Key::Char('Y') {
                        self.junk = JunkState::Cleaning {
                            current: String::new(),
                            done_bytes: 0,
                            total_bytes: 1,
                        };
                        self.status = String::from_str("Cleaning...");
                        Command::StartDelete { entries, dry_run: self.dry_run }
                    } else {
                        self.junk = JunkState::Review { entries, cursor, confirm: false };
                        self.status = String::from_str("Cancelled.");
                        Command::Nothing
                    }
                } else if key == Key::Up {
                    let c = if cursor > 0 { cursor - 1 } else { cursor };
                    self.junk = JunkState::Review { entries, cursor: c, confirm };
                    Command::Nothing
                } else if key == Key::Down {
                    let n = entries.len();
                    assert(cursor < n || cursor == 0) by {
                        assert(entry_views(entries@).len() == n);
                    }
                    let c = if cursor + 1 < entries.len() { cursor + 1 } else { cursor };
                    self.junk = JunkState::Review { entries, cursor: c, confirm };
                    Command::Nothing
                } else if key == Key::Char(' ') {
                    let mut entries = entries;
                    if cursor < entries.len() {
                        let ghost before = entry_views(entries@);
                        let mut e = entries.remove(cursor);
                        e.selected = !e.selected;
                        entries.insert(cursor, e);
                        proof {
                            assert(entry_views(entries@) =~= before.update(cursor as int, toggled(before[cursor as int])));
                            lemma_update_keeps_totals(before, cursor as int, toggled(before[cursor as int]));
                        }
                    }
                    self.junk = JunkState::Review { entries, cursor, confirm };
                    Command::Nothing
                } else if key == Key::Char('c') {
                    let total = selected_sum(&entries);
                    if total > 0 {
                        let mut prompt = String::from_str("Delete ");
                        let size = human_size(total);
                        prompt.append(size.as_str());
                        prompt.append("? [y/N]");
                        self.junk = JunkState::Review { entries, cursor, confirm: true };
                        self.status = prompt;
                    } else {
                        self.junk = JunkState::Review { entries, cursor, confirm };
                    }
                    Command::Nothing
                } else {
                    self.junk = JunkState::Review { entries, cursor, confirm };
                    Command::Nothing
                }
            },
        }
    }

    fn on_key_memory(&mut self, key: Key) -> (cmd: Command)
        requires
            app_wf(old(self)@),
        ensures
            (final(self)@, cmd@) == memory_key(old(self)@, key),
            app_wf(final(self)@),
    {
        if key == Key::Char('p') && !self.mem.freeing {
            self.mem.status = Some(
                String::from_str("Freeing memory (sudo password may be required in this terminal)..."),
            );
            self.mem.freeing = true;
            Command::FreeUp
        } else {
            Command::Nothing
        }
    }

    /// Takes the result of background work (see [`event_step`]).
    pub fn tick(&mut self, event: Event)
        requires
            app_wf(old(self)@),
            event_wf(event@),
        ensures
            final(self)@ == event_step(old(self)@, event@),
            app_wf(final(self)@),
    {
        match event {
            Event::ScanDone(entries) => {
                if let JunkState::Scanning = self.junk {
                    self.junk = JunkState::Review { entries, cursor: 0, confirm: false };
                    self.status = String::from_str("space: toggle  ·  [c] clean  ·  Tab: sidebar");
                }
            },
            Event::Progress(p) => {
                let cleaning = match &self.junk {
                    JunkState::Cleaning { .. } => true,
                    _ => false,
                };
                if cleaning {
                    match p {
                        Progress::Item { path, done_bytes, total_bytes } => {
                            self.junk = JunkState::Cleaning { current: path, done_bytes, total_bytes };
                        },
                        Progress::Done { per_category, total_freed } => {
                            self.junk = JunkState::Summary { freed: total_freed, per_category };
                        },
                    }
                }
            },
            Event::MemSample(stats) => {
                self.mem.stats = stats;
            },
            Event::FreeUpDone(r) => {
                if self.mem.freeing {
                    let status = match r {
                        Ok(()) => String::from_str("Memory freed."),
                        Err(msg) => {
                            let mut t = String::from_str("purge failed: ");
                            t.append(msg.as_str());
                            t
                        },
                    };
                    self.mem.status = Some(status);
                    self.mem.freeing = false;
                }
            },
        }
    }
}

/// The sum of the totals of the selected entries.
fn selected_sum(entries: &Vec<CategoryEntry>) -> (r: u64)
    requires
        entries_total(entry_views(entries@)) <= u64::MAX,
    ensures
        r == selected_total(entry_views(entries@)),
{
    let ghost all = entry_views(entries@);
    proof {
        lemma_selected_le_entries_total(all);
    }
    let mut total: u64 = 0;
    let mut i: usize = 0;
    while i < entries.len()
        invariant
            i <= entries@.len(),
            all == entry_views(entries@),
            selected_total(all) <= u64::MAX,
            total == selected_total(all.take(i as int)),
        decreases entries@.len() - i,
    {
        proof {
            assert(all.take(i + 1).drop_last() =~= all.take(i as int));
            assert(all.take(i + 1).last() == entries@[i as int]@);
            lemma_entries_total_prefix(all, i + 1);
        }
        if entries[i].selected {
            total = total + entries[i].total_size;
        }
        i = i + 1;
    }
    assert(all.take(entries@.len() as int) =~= all);
    total
}

} // verus!
