use macsweep::running::RunningApps;

#[test]
fn matches_by_bundle_id_tail() {
    let apps = RunningApps::from_names(vec!["google chrome helper".to_string()]);
    assert!(apps.matches("com.google.Chrome"));
    assert!(!apps.matches("com.example.NotRunning"));
}

#[test]
fn ignores_short_tokens_to_avoid_false_positives() {
    let apps = RunningApps::from_names(vec!["finder".to_string()]);
    assert!(!apps.matches("com.apple.tv")); // "tv" too short a token
}

#[test]
fn process_names_are_lowercased_before_matching() {
    let apps = RunningApps::from_process_names(vec!["Google Chrome Helper".to_string(), "Finder".to_string()]);
    assert!(apps.matches("com.google.Chrome"));
    assert!(apps.matches("com.apple.finder"));
    assert!(!apps.matches("com.apple.Safari"));
}

#[test]
fn dir_name_without_dot_is_its_own_token() {
    let apps = RunningApps::from_process_names(vec!["slack helper".to_string()]);
    assert!(apps.matches("Slack"));
    assert!(!apps.matches("Slack.")); // empty last segment
}

#[test]
fn token_length_is_counted_in_bytes() {
    // "é" takes two bytes, so "éa" reaches the three-byte minimum.
    let apps = RunningApps::from_process_names(vec!["xéay".to_string()]);
    assert!(apps.matches("com.example.éa"));
    assert!(!apps.matches("com.example.xy"));
}

#[test]
fn repeated_process_names_do_not_change_matching() {
    let once = RunningApps::from_process_names(vec!["mail".to_string()]);
    let twice = RunningApps::from_process_names(vec!["mail".to_string(), "MAIL".to_string()]);
    assert_eq!(once.matches("com.apple.mail"), twice.matches("com.apple.mail"));
    assert!(twice.matches("com.apple.mail"));
}

#[test]
fn tokens_match_by_substring_of_a_name() {
    let apps = RunningApps::from_names(vec!["google chrome helper".to_string(), "dock".to_string()]);
    assert!(apps.matches_token("chrome"));
    assert!(apps.matches_token("doc"));
    assert!(!apps.matches_token("do"));
    assert!(!apps.matches_token("Chrome")); // tokens are compared as given
    assert!(!apps.matches_token("safari"));
}
