use ardiex::runner::should_skip_hot_reload;

#[test]
fn should_skip_hot_reload_when_latest_matches_active_fingerprint() {
    assert!(should_skip_hot_reload("active", None, "active"));
}

#[test]
fn should_skip_hot_reload_when_latest_matches_failed_fingerprint() {
    assert!(should_skip_hot_reload("active", Some("failed"), "failed"));
}

#[test]
fn should_not_skip_hot_reload_for_new_fingerprint() {
    assert!(!should_skip_hot_reload("active", Some("failed"), "new"));
}
