use conjure::lock::LockFile;

#[test]
fn lock_retain_and_unlock() {
    let mut lock = LockFile::default();
    lock.lock("a", None, None, None, "c1".into());
    lock.lock("b", None, None, None, "c2".into());
    assert_eq!(lock.entries().len(), 2);

    lock.unlock("a");
    assert!(!lock.entries().contains_key("a"));
    assert!(lock.entries().contains_key("b"));

    lock.retain(|name| name == "b");
    assert_eq!(lock.entries().len(), 1);
}
