use pop3_server::maildir::{mailbox_dirs, MailDir, MailDirError, MailEntry};

fn entry(path: &str, size: u64) -> MailEntry {
    MailEntry { id: 99, path: path.to_string(), size, filename: path.to_string() }
}

#[test]
fn mailbox_paths() {
    let md = MailDir::new("alice");
    assert_eq!(md.username(), "alice");
    assert_eq!(md.new_path(), "Maildir/alice/new");
    assert_eq!(md.cur_path(), "Maildir/alice/cur");
    assert_eq!(md.len(), 0);
    assert_eq!(
        mailbox_dirs("bob"),
        vec!["Maildir/bob/cur", "Maildir/bob/new", "Maildir/bob/tmp"]
    );
}

#[test]
fn snapshot_is_numbered_from_one() {
    let mut md = MailDir::new("alice");
    md.refresh_cache(vec![entry("n/a", 5)], vec![entry("c/b", 7), entry("c/c", 9)]);
    let listed = md.list_messages();
    assert_eq!(listed.len(), 3);
    assert_eq!(listed.iter().map(|e| e.id).collect::<Vec<_>>(), vec![1, 2, 3]);
    assert_eq!(listed[0].path, "n/a");
    assert_eq!(listed[1].path, "c/b");
    assert_eq!(listed[2].size, 9);
}

#[test]
fn entries_by_ordinal() {
    let mut md = MailDir::new("alice");
    md.refresh_cache(Vec::new(), vec![entry("n/a", 5)]);
    assert_eq!(md.entry(1).unwrap().path, "n/a");
    assert!(matches!(md.entry(0), Err(MailDirError::MailEntryNotFound(_))));
    assert!(matches!(md.entry(2), Err(MailDirError::MailEntryNotFound(_))));
}

#[test]
fn error_messages() {
    assert_eq!(MailDirError::IoError("boom".to_string()).message(), "I/O error: boom");
    assert_eq!(
        MailDirError::MailEntryNotFound("x".to_string()).message(),
        "mail entry not found"
    );
}

#[test]
fn new_partition_comes_first() {
    let mut md = MailDir::new("alice");
    md.refresh_cache(vec![entry("new/x", 1), entry("new/y", 2)], vec![entry("cur/z", 3)]);
    let listed = md.list_messages();
    assert_eq!(
        listed.iter().map(|e| e.path.clone()).collect::<Vec<_>>(),
        vec!["new/x", "new/y", "cur/z"]
    );
    assert_eq!(md.entry(3).unwrap().size, 3);
}
