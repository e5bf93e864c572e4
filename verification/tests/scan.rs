use macsweep::scan::{
    assert_deletable, build_entry, checked_deletable_total, checked_items_total, collect_roots, deletable_paths, has_extension,
    ios_backups_excluding_latest, is_app_bundle, is_denied, is_kept_locale, is_strippable_locale, Backup,
    Category, Item, RootProbe,
};

#[test]
fn denylist_blocks_icloud_paths() {
    assert!(is_denied("/Users/x/Library/Mobile Documents/com~apple~CloudDocs/foo"));
    assert!(is_denied("/Users/x/Library/Keychains/login.keychain"));
    assert!(!is_denied("/Users/x/Library/Caches/com.example.App"));
}

#[test]
fn denylist_covers_every_entry() {
    assert!(is_denied("/Users/x/Library/Caches/com.apple.bird"));
    assert!(is_denied("/Users/x/Library/Caches/com.apple.cloudd/x"));
    assert!(is_denied("/Users/x/Library/Caches/com.apple.security.foo"));
    assert!(is_denied("/Users/x/Library/Logs/com.apple.icloud"));
    assert!(!is_denied("/Users/x/Library/Caches/com.apple.Safari"));
}

#[test]
fn kept_locales_are_never_stripped() {
    assert!(is_kept_locale("en.lproj"));
    assert!(is_kept_locale("Base.lproj"));
    assert!(!is_kept_locale("fr.lproj"));
}

#[test]
fn extensions_follow_path_rules() {
    assert!(has_extension("fr.lproj", "lproj"));
    assert!(!has_extension(".lproj", "lproj"));
    assert!(has_extension("a.b.lproj", "lproj"));
    assert!(!has_extension("lproj", "lproj"));
    assert!(has_extension("x.", ""));
    assert!(!has_extension("..", ""));
    assert!(is_app_bundle("Safari.app"));
    assert!(!is_app_bundle("Safari.app.zip"));
    assert!(is_strippable_locale("fr.lproj"));
    assert!(!is_strippable_locale("en.lproj"));
    assert!(!is_strippable_locale("Base.lproj"));
    assert!(!is_strippable_locale("fr.strings"));
}

#[test]
fn build_entry_sums_sizes() {
    let items = vec![
        Item { path: "/a".to_string(), size: 100 },
        Item { path: "/b".to_string(), size: 250 },
    ];
    let entry = build_entry(Category::UserCache, items, 2);
    assert_eq!(entry.total_size, 350);
    assert_eq!(entry.skipped_running, 2);
    assert!(entry.selected);
}

#[test]
fn items_total_reports_overflow() {
    let items = vec![
        Item { path: "/a".to_string(), size: u64::MAX },
        Item { path: "/b".to_string(), size: 1 },
    ];
    assert_eq!(checked_items_total(&items), None);
    assert_eq!(checked_items_total(&items[..1]), Some(u64::MAX));
    assert_eq!(checked_items_total(&Vec::<Item>::new()), Some(0));
}

#[test]
fn xcode_simulators_delete_via_command_not_filesystem() {
    assert!(Category::XcodeSimulators.deletes_via_command());
    assert!(!Category::IosBackups.deletes_via_command());
    assert!(!Category::UserCache.deletes_via_command());
}

#[test]
fn category_labels() {
    assert_eq!(Category::UserCache.label(), "User Cache");
    assert_eq!(Category::XcodeJunk.label(), "Xcode Derived Data");
    assert_eq!(Category::IosBackups.label(), "iOS Device Backups (stale)");
}

#[test]
fn file_count_label_counts_items() {
    let entry = build_entry(
        Category::Logs,
        vec![Item { path: "/a".to_string(), size: 1 }, Item { path: "/b".to_string(), size: 2 }],
        0,
    );
    assert_eq!(entry.file_count_label(), "2 items");
}

#[test]
fn assert_deletable_filters_denied_even_if_leaked_into_items() {
    let items = vec![
        Item { path: "/Users/x/Library/Keychains/login.keychain".to_string(), size: 10 },
        Item { path: "/Users/x/Library/Caches/com.example.App".to_string(), size: 20 },
    ];
    let safe = assert_deletable(&items);
    assert_eq!(safe.len(), 1);
    assert_eq!(safe[0].path, "/Users/x/Library/Caches/com.example.App".to_string());
}

#[test]
fn deletable_paths_drop_denied_and_keep_order() {
    let paths = vec![
        "/c/b".to_string(),
        "/c/Keychains".to_string(),
        "/c/a".to_string(),
    ];
    assert_eq!(deletable_paths(paths), vec!["/c/b".to_string(), "/c/a".to_string()]);
}

#[test]
fn roots_in_use_are_skipped_and_counted() {
    let probes = vec![
        RootProbe { path: "/c/com.google.Chrome".to_string(), size: 0, in_use: true },
        RootProbe { path: "/c/com.example.Old".to_string(), size: 40, in_use: false },
        RootProbe { path: "/c/com.apple.Mail".to_string(), size: 0, in_use: true },
    ];
    let (items, skipped) = collect_roots(probes);
    assert_eq!(skipped, 2);
    assert_eq!(items.len(), 1);
    assert_eq!(items[0].path, "/c/com.example.Old");
    assert_eq!(items[0].size, 40);
}

#[test]
fn ios_backups_protect_the_newest_candidate() {
    let backups = vec![
        Backup { path: "/b/newest-device".to_string(), modified: 5_000 },
        Backup { path: "/b/old-device".to_string(), modified: 1_000 },
        Backup { path: "/b/middle-device".to_string(), modified: 3_000 },
    ];
    let listed = ios_backups_excluding_latest(backups);
    assert_eq!(listed, vec!["/b/old-device".to_string(), "/b/middle-device".to_string()]);
}

#[test]
fn ios_backups_with_equal_times_keep_their_order_and_protect_the_last() {
    let backups = vec![
        Backup { path: "/b/a".to_string(), modified: 7 },
        Backup { path: "/b/b".to_string(), modified: -3 },
        Backup { path: "/b/c".to_string(), modified: 7 },
    ];
    let listed = ios_backups_excluding_latest(backups);
    assert_eq!(listed, vec!["/b/b".to_string(), "/b/a".to_string()]);
}

#[test]
fn ios_backups_single_or_none_lists_nothing() {
    assert!(ios_backups_excluding_latest(vec![]).is_empty());
    assert!(ios_backups_excluding_latest(vec![Backup { path: "/b/only".to_string(), modified: 1 }]).is_empty());
}

#[test]
fn deletable_total_leaves_out_denied_items() {
    let items = vec![
        Item { path: "/Users/x/Library/Keychains/login.keychain".to_string(), size: u64::MAX },
        Item { path: "/Users/x/Library/Caches/a".to_string(), size: 20 },
        Item { path: "/Users/x/Library/Caches/b".to_string(), size: 5 },
    ];
    assert_eq!(checked_deletable_total(&items), Some(25));
    assert_eq!(checked_items_total(&items), None);
}
