use ardiex::watcher::{should_trigger_backup, WatchEventKind};

#[test]
fn should_trigger_backup_on_create_event() {
    let paths = vec![String::from("/tmp/a.txt")];
    assert!(should_trigger_backup(WatchEventKind::Create, &paths));
}

#[test]
fn should_trigger_backup_on_remove_event() {
    let paths = vec![String::from("/tmp/a.txt")];
    assert!(should_trigger_backup(WatchEventKind::Remove, &paths));
}

#[test]
fn should_trigger_backup_on_regular_modify_event() {
    let paths = vec![String::from("/tmp/a.txt")];
    assert!(should_trigger_backup(WatchEventKind::Modify, &paths));
}

#[test]
fn should_not_trigger_backup_on_temp_modify_event() {
    assert!(!should_trigger_backup(
        WatchEventKind::Modify,
        &vec![String::from("/tmp/a.txt.tmp")]
    ));
    assert!(!should_trigger_backup(
        WatchEventKind::Modify,
        &vec![String::from("/tmp/a.txt.swp")]
    ));
    assert!(!should_trigger_backup(
        WatchEventKind::Modify,
        &vec![String::from("/tmp/a.txt.lock")]
    ));
}

#[test]
fn should_not_trigger_backup_on_unrelated_event_kind() {
    let paths = vec![String::from("/tmp/a.txt")];
    assert!(!should_trigger_backup(WatchEventKind::Other, &paths));
}

#[test]
fn should_not_trigger_backup_when_modify_event_contains_temp_path_among_paths() {
    let paths = vec![String::from("/tmp/a.txt"), String::from("/tmp/a.txt.tmp")];
    assert!(!should_trigger_backup(WatchEventKind::Modify, &paths));
}
