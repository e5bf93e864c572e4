use macsweep::clean::{deletion_fits, DeleteAction, Deletion, Progress};
use macsweep::scan::{build_entry, Category, CategoryEntry, Item};

fn entries() -> Vec<CategoryEntry> {
    let mut logs = build_entry(Category::Logs, vec![Item { path: "/l/x".to_string(), size: 7 }], 0);
    logs.selected = false;
    vec![
        build_entry(
            Category::UserCache,
            vec![
                Item { path: "/c/a".to_string(), size: 100 },
                Item { path: "/c/Keychains/k".to_string(), size: 10 },
                Item { path: "/c/b".to_string(), size: 50 },
            ],
            0,
        ),
        logs,
        build_entry(Category::XcodeSimulators, vec![Item { path: "/s/d".to_string(), size: 30 }], 0),
    ]
}

/// Drives a deletion to its end, answering each removal with `outcome`.
fn run(dry_run: bool, outcome: impl Fn(&str) -> bool, simctl_ok: bool) -> (Vec<(String, u64, u64)>, Progress, Vec<String>) {
    let mut d = Deletion::new(&entries(), dry_run);
    let mut reports = Vec::new();
    let mut asked = Vec::new();
    loop {
        let ok = match d.next_action() {
            DeleteAction::Remove { path } => {
                asked.push(path.clone());
                outcome(&path)
            }
            DeleteAction::RunSimctl => {
                asked.push("simctl".to_string());
                simctl_ok
            }
            DeleteAction::DryRun => true,
            DeleteAction::Finish => break,
        };
        if let Some(Progress::Item { path, done_bytes, total_bytes }) = d.complete(ok) {
            reports.push((path, done_bytes, total_bytes));
        }
    }
    (reports, d.finish(), asked)
}

#[test]
fn deletes_selected_items_but_never_denied_ones() {
    let (reports, done, asked) = run(false, |_| true, true);
    assert_eq!(asked, vec!["/c/a".to_string(), "/c/b".to_string(), "simctl".to_string()]);
    assert_eq!(
        reports,
        vec![
            ("/c/a".to_string(), 100, 190),
            ("/c/b".to_string(), 150, 190),
            ("Xcode Simulators (via xcrun simctl)".to_string(), 180, 190),
        ]
    );
    match done {
        Progress::Done { per_category, total_freed } => {
            assert_eq!(per_category, vec![("User Cache", 150), ("Xcode Simulators", 30)]);
            assert_eq!(total_freed, 180);
        }
        _ => panic!("not done"),
    }
}

#[test]
fn failed_removals_are_skipped() {
    let (reports, done, _) = run(false, |p| p != "/c/a", false);
    assert_eq!(reports, vec![("/c/b".to_string(), 50, 190)]);
    match done {
        Progress::Done { per_category, total_freed } => {
            assert_eq!(per_category, vec![("User Cache", 50), ("Xcode Simulators", 0)]);
            assert_eq!(total_freed, 50);
        }
        _ => panic!("not done"),
    }
}

#[test]
fn dry_run_asks_for_nothing_and_counts_everything_deletable() {
    let (reports, done, asked) = run(true, |_| false, false);
    assert!(asked.is_empty());
    assert_eq!(reports.len(), 3);
    match done {
        Progress::Done { total_freed, .. } => assert_eq!(total_freed, 180),
        _ => panic!("not done"),
    }
}

#[test]
fn nothing_selected_finishes_at_once() {
    let mut all = entries();
    for e in all.iter_mut() {
        e.selected = false;
    }
    let mut d = Deletion::new(&all, false);
    assert!(matches!(d.next_action(), DeleteAction::Finish));
    match d.finish() {
        Progress::Done { per_category, total_freed } => {
            assert!(per_category.is_empty());
            assert_eq!(total_freed, 0);
        }
        _ => panic!("not done"),
    }
}

#[test]
fn deletion_fits_checks_the_selected_sums() {
    assert!(deletion_fits(&entries()));
    let huge = vec![
        build_entry(Category::Trash, vec![Item { path: "/t/a".to_string(), size: u64::MAX }], 0),
        build_entry(Category::Logs, vec![Item { path: "/l/a".to_string(), size: 1 }], 0),
    ];
    assert!(!deletion_fits(&huge));
    let mut one = huge.clone();
    one[1].selected = false;
    assert!(deletion_fits(&one));
}

#[test]
fn inconsistent_totals_still_count_what_is_removed() {
    // a hand-made entry whose total understates its items
    let mut e = build_entry(Category::Trash, vec![Item { path: "/t/a".to_string(), size: 30 }], 0);
    e.total_size = 10;
    let mut d = Deletion::new(&vec![e], false);
    assert!(matches!(d.next_action(), DeleteAction::Remove { .. }));
    match d.complete(true) {
        Some(Progress::Item { done_bytes, total_bytes, .. }) => assert_eq!((done_bytes, total_bytes), (30, 10)),
        _ => panic!("no report"),
    }
}
