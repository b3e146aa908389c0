use schemajs::fdm::{FdAction, FileDescriptorManager};

fn s(x: &str) -> String {
    x.to_string()
}

#[test]
fn cached_path_is_reused() {
    let mut m = FileDescriptorManager::new(2);
    assert_eq!(m.get(&s("a")), FdAction::Open(0));
    assert_eq!(m.get(&s("a")), FdAction::Reuse(0));
    assert_eq!(m.entries[0].in_use, 2);
}

#[test]
fn least_recently_used_idle_handle_is_replaced() {
    let mut m = FileDescriptorManager::new(2);
    assert_eq!(m.get(&s("a")), FdAction::Open(0));
    assert_eq!(m.get(&s("b")), FdAction::Open(1));
    assert!(!m.release(0));
    assert!(!m.release(1));
    assert_eq!(m.get(&s("b")), FdAction::Reuse(1));
    assert!(!m.release(1));
    assert_eq!(m.get(&s("c")), FdAction::Replace(0));
    assert_eq!(m.entries[0].path, "c");
    assert_eq!(m.entries[1].path, "b");
}

#[test]
fn handles_in_use_are_never_evicted() {
    let mut m = FileDescriptorManager::new(1);
    assert_eq!(m.get(&s("a")), FdAction::Open(0));
    assert_eq!(m.get(&s("b")), FdAction::Open(1));
    assert_eq!(m.entries.len(), 2);
    assert!(m.release(0));
    assert_eq!(m.entries.len(), 1);
    assert_eq!(m.entries[0].path, "b");
    assert!(!m.release(0));
    assert_eq!(m.entries.len(), 1);
}
