use macsweep::app::{scan_result_ok, App, Command, Event, Focus, JunkState, Key, Panel};
use macsweep::clean::Progress;
use macsweep::mem::MemStats;
use macsweep::scan::{build_entry, Category, CategoryEntry, Item};

fn stats() -> MemStats {
    MemStats::default()
}

fn entries() -> Vec<CategoryEntry> {
    vec![
        build_entry(Category::UserCache, vec![Item { path: "/c/a".to_string(), size: 1024 }], 0),
        build_entry(Category::Logs, vec![Item { path: "/l/a".to_string(), size: 512 }], 0),
    ]
}

/// An application with scan results under review and the main area focused.
fn reviewing() -> App {
    let mut app = App::new(false, stats());
    assert!(matches!(app.on_key(Key::Tab), Command::Nothing));
    assert!(matches!(app.on_key(Key::Char('s')), Command::StartScan));
    app.tick(Event::ScanDone(entries()));
    app
}

#[test]
fn starts_blank_with_help_status() {
    let app = App::new(true, stats());
    assert!(matches!(app.junk, JunkState::Blank));
    assert!(app.panel == Panel::Junk && app.focus == Focus::Sidebar);
    assert_eq!(app.status, "Tab: switch focus  \u{b7}  [s] scan  \u{b7}  [q] quit");
    assert!(app.dry_run && !app.should_quit);
}

#[test]
fn q_quits_when_nothing_is_pending() {
    let mut app = App::new(false, stats());
    assert!(matches!(app.on_key(Key::Char('q')), Command::Nothing));
    assert!(app.should_quit);
}

#[test]
fn sidebar_switches_panels_and_focus() {
    let mut app = App::new(false, stats());
    app.on_key(Key::Down);
    assert!(app.panel == Panel::Memory);
    app.on_key(Key::Up);
    assert!(app.panel == Panel::Junk);
    app.on_key(Key::Enter);
    assert!(app.focus == Focus::Main);
    app.on_key(Key::Tab);
    assert!(app.focus == Focus::Sidebar);
    app.on_key(Key::Right);
    assert!(app.focus == Focus::Main);
}

#[test]
fn scan_results_are_reviewed() {
    let app = reviewing();
    match &app.junk {
        JunkState::Review { entries, cursor, confirm } => {
            assert_eq!(entries.len(), 2);
            assert_eq!(*cursor, 0);
            assert!(!*confirm);
        }
        _ => panic!("not reviewing"),
    }
    assert_eq!(app.status, "space: toggle  \u{b7}  [c] clean  \u{b7}  Tab: sidebar");
}

#[test]
fn cursor_stays_on_the_entries() {
    let mut app = reviewing();
    app.on_key(Key::Up);
    app.on_key(Key::Down);
    app.on_key(Key::Down);
    app.on_key(Key::Down);
    match &app.junk {
        JunkState::Review { cursor, .. } => assert_eq!(*cursor, 1),
        _ => panic!("not reviewing"),
    }
}

#[test]
fn space_toggles_and_toggles_back() {
    let mut app = reviewing();
    app.on_key(Key::Char(' '));
    match &app.junk {
        JunkState::Review { entries, .. } => assert!(!entries[0].selected && entries[1].selected),
        _ => panic!("not reviewing"),
    }
    app.on_key(Key::Char(' '));
    match &app.junk {
        JunkState::Review { entries, .. } => assert!(entries[0].selected),
        _ => panic!("not reviewing"),
    }
}

#[test]
fn clean_asks_for_confirmation_with_the_selected_size() {
    let mut app = reviewing();
    assert!(matches!(app.on_key(Key::Char('c')), Command::Nothing));
    assert_eq!(app.status, "Delete 1.5 KB? [y/N]");
    // 'q' while confirming cancels instead of quitting
    assert!(matches!(app.on_key(Key::Char('q')), Command::Nothing));
    assert!(!app.should_quit);
    assert_eq!(app.status, "Cancelled.");
}

#[test]
fn nothing_selected_means_no_confirmation() {
    let mut app = reviewing();
    app.on_key(Key::Char(' '));
    app.on_key(Key::Down);
    app.on_key(Key::Char(' '));
    app.on_key(Key::Char('c'));
    match &app.junk {
        JunkState::Review { confirm, .. } => assert!(!*confirm),
        _ => panic!("not reviewing"),
    }
}

#[test]
fn yes_starts_deleting_the_reviewed_entries() {
    let mut app = reviewing();
    app.on_key(Key::Char('c'));
    match app.on_key(Key::Char('Y')) {
        Command::StartDelete { entries, dry_run } => {
            assert_eq!(entries.len(), 2);
            assert!(!dry_run);
        }
        _ => panic!("no deletion"),
    }
    assert_eq!(app.status, "Cleaning...");
    assert!(matches!(app.junk, JunkState::Cleaning { done_bytes: 0, total_bytes: 1, .. }));
    app.tick(Event::Progress(Progress::Item { path: "/c/a".to_string(), done_bytes: 1024, total_bytes: 1536 }));
    match &app.junk {
        JunkState::Cleaning { current, done_bytes, total_bytes } => {
            assert_eq!(current, "/c/a");
            assert_eq!((*done_bytes, *total_bytes), (1024, 1536));
        }
        _ => panic!("not cleaning"),
    }
    app.tick(Event::Progress(Progress::Done { per_category: vec![("User Cache", 1024), ("Logs", 512)], total_freed: 1536 }));
    match &app.junk {
        JunkState::Summary { freed, per_category } => {
            assert_eq!(*freed, 1536);
            assert_eq!(per_category.len(), 2);
        }
        _ => panic!("no summary"),
    }
    // any key rescans
    assert!(matches!(app.on_key(Key::Char('x')), Command::StartScan));
    assert!(matches!(app.junk, JunkState::Scanning));
}

#[test]
fn results_in_the_wrong_state_are_ignored() {
    let mut app = App::new(false, stats());
    app.tick(Event::ScanDone(entries()));
    assert!(matches!(app.junk, JunkState::Blank));
    app.tick(Event::Progress(Progress::Done { per_category: vec![], total_freed: 0 }));
    assert!(matches!(app.junk, JunkState::Blank));
    app.tick(Event::FreeUpDone(Ok(())));
    assert!(app.mem.status.is_none());
}

#[test]
fn memory_panel_frees_once_at_a_time() {
    let mut app = App::new(false, stats());
    app.on_key(Key::Down);
    app.on_key(Key::Enter);
    assert!(matches!(app.on_key(Key::Char('p')), Command::FreeUp));
    assert!(app.mem.is_freeing());
    assert!(matches!(app.on_key(Key::Char('p')), Command::Nothing));
    app.tick(Event::FreeUpDone(Err("exit status: 1".to_string())));
    assert_eq!(app.mem.status.as_deref(), Some("purge failed: exit status: 1"));
    assert!(!app.mem.is_freeing());
    assert!(matches!(app.on_key(Key::Char('p')), Command::FreeUp));
    app.tick(Event::FreeUpDone(Ok(())));
    assert_eq!(app.mem.status.as_deref(), Some("Memory freed."));
}

#[test]
fn memory_samples_are_shown() {
    let mut app = App::new(false, stats());
    let s = MemStats { total_bytes: 100, used_bytes: 40, available_bytes: 60, swap_used_bytes: 1, swap_total_bytes: 2 };
    app.tick(Event::MemSample(s));
    assert_eq!(app.mem.stats, s);
}

#[test]
fn scan_results_must_fit_in_u64() {
    assert!(scan_result_ok(&entries()));
    let huge = vec![
        build_entry(Category::Trash, vec![Item { path: "/t/a".to_string(), size: u64::MAX }], 0),
        build_entry(Category::Logs, vec![Item { path: "/l/a".to_string(), size: 1 }], 0),
    ];
    assert!(!scan_result_ok(&huge));
}
