use pop3_server::maildir::{MailDirError, MailEntry};
use pop3_server::protocol::StatusIndicator;
use pop3_server::lock_table::SessionManager;
use pop3_server::session::{Action, Session, SessionState};

struct Store {
    password: String,
    messages: Vec<(String, String)>,
    removed: Vec<String>,
    snapshot_error: Option<String>,
}

fn store() -> Store {
    Store {
        password: "secret".to_string(),
        messages: vec![
            ("Maildir/alice/new/1".to_string(), "x".repeat(200)),
            ("Maildir/alice/cur/2".to_string(), "y".repeat(300)),
        ],
        removed: Vec::new(),
        snapshot_error: None,
    }
}

fn listing(s: &Store, part: &str) -> Vec<MailEntry> {
    s.messages
        .iter()
        .filter(|(p, _)| p.contains(part))
        .map(|(p, text)| MailEntry {
            id: 0,
            path: p.clone(),
            size: text.len() as u64,
            filename: p.rsplit('/').next().unwrap().to_string(),
        })
        .collect()
}

/// Handles one line the way a server does, performing the outside work
/// that the session asks for; returns what is sent and whether the session
/// ended.
fn exchange(session: &mut Session, manager: &mut SessionManager, s: &mut Store, line: &str) -> (String, bool) {
    let mut action = session.handle_line(line);
    loop {
        action = match action {
            Action::Reply(r) => return (r.to_wire(), false),
            Action::Close(r) => return (r.to_wire(), true),
            Action::CheckCredentials(_, p) => session.on_credentials(p == s.password),
            Action::AcquireLock(u) => {
                let granted = manager.try_lock_mailbox(&u);
                session.on_lock(granted)
            },
            Action::LoadMailbox(lock, mut md) => {
                let loaded = match &s.snapshot_error {
                    Some(e) => Err(MailDirError::IoError(e.clone())),
                    None => {
                        md.refresh_cache(listing(s, "/new/"), listing(s, "/cur/"));
                        Ok(md)
                    },
                };
                session.on_mailbox(lock, loaded)
            },
            Action::ReadMessage(id, path) => {
                let content = s
                    .messages
                    .iter()
                    .find(|(p, _)| *p == path)
                    .map(|(_, t)| t.clone())
                    .ok_or(MailDirError::IoError("gone".to_string()));
                session.on_message(id, content)
            },
            Action::ReleaseLock(lock, r) => {
                manager.unlock_mailbox(lock.username());
                return (r.to_wire(), false);
            },
            Action::Update(r, paths) => {
                s.removed.extend(paths.iter().cloned());
                s.messages.retain(|(p, _)| !paths.contains(p));
                return (r.to_wire(), true);
            },
        };
    }
}

fn send(session: &mut Session, manager: &mut SessionManager, s: &mut Store, line: &str) -> String {
    exchange(session, manager, s, line).0
}

fn logged_in(manager: &mut SessionManager, s: &mut Store) -> Session {
    let mut session = Session::new();
    assert_eq!(send(&mut session, manager, s, "USER alice\r\n"), "+OK User accepted\r\n");
    assert_eq!(send(&mut session, manager, s, "PASS secret\r\n"), "+OK Pass accepted\r\n");
    session
}

#[test]
fn greeting_line() {
    assert_eq!(Session::greeting().to_wire(), "+OK POP3 server ready\r\n");
}

#[test]
fn successful_session_without_deletions() {
    let mut manager = SessionManager::new();
    let mut s = store();
    let mut session = logged_in(&mut manager, &mut s);
    assert_eq!(
        send(&mut session, &mut manager, &mut s, "LIST\r\n"),
        "+OK 2 messages (500 octets)\r\n1 200\r\n2 300\r\n.\r\n"
    );
    let (bye, closed) = exchange(&mut session, &mut manager, &mut s, "QUIT\r\n");
    assert_eq!(bye, "+OK Bye!\r\n");
    assert!(closed);
    assert!(s.removed.is_empty());
    assert_eq!(s.messages.len(), 2);
    let lock = session.finish().unwrap();
    manager.unlock_mailbox(lock.username());
    assert!(manager.try_lock_mailbox("alice").is_ok());
}

#[test]
fn bad_password() {
    let mut manager = SessionManager::new();
    let mut s = store();
    let mut session = Session::new();
    assert_eq!(send(&mut session, &mut manager, &mut s, "USER alice\r\n"), "+OK User accepted\r\n");
    assert_eq!(
        send(&mut session, &mut manager, &mut s, "PASS wrong\r\n"),
        "-ERR Username or password are incorrect\r\n"
    );
    assert!(matches!(session.state(), SessionState::AuthorizationWithUser(u) if u == "alice"));
    let (bye, closed) = exchange(&mut session, &mut manager, &mut s, "QUIT\r\n");
    assert_eq!(bye, "+OK Bye!\r\n");
    assert!(closed);
    assert!(session.finish().is_none());
}

#[test]
fn lock_contention() {
    let mut manager = SessionManager::new();
    let mut s = store();
    let _a = logged_in(&mut manager, &mut s);
    let mut b = Session::new();
    assert_eq!(send(&mut b, &mut manager, &mut s, "USER alice\r\n"), "+OK User accepted\r\n");
    assert_eq!(send(&mut b, &mut manager, &mut s, "PASS secret\r\n"), "-ERR Mailbox already in use\r\n");
    assert!(matches!(b.state(), SessionState::AuthorizationWithUser(u) if u == "alice"));
}

#[test]
fn delete_then_reset() {
    let mut manager = SessionManager::new();
    let mut s = store();
    let mut session = logged_in(&mut manager, &mut s);
    let first = send(&mut session, &mut manager, &mut s, "LIST\r\n");
    assert_eq!(send(&mut session, &mut manager, &mut s, "DELE 1\r\n"), "+OK message 1 deleted\r\n");
    assert_eq!(
        send(&mut session, &mut manager, &mut s, "LIST\r\n"),
        "+OK 1 messages (300 octets)\r\n2 300\r\n.\r\n"
    );
    assert_eq!(send(&mut session, &mut manager, &mut s, "RSET\r\n"), "+OK \r\n");
    let again = send(&mut session, &mut manager, &mut s, "LIST\r\n");
    assert_eq!(again, "+OK 2 messages (500 octets)\r\n1 200\r\n2 300\r\n.\r\n");
    assert_eq!(again, first);
}

#[test]
fn delete_and_commit() {
    let mut manager = SessionManager::new();
    let mut s = store();
    let mut session = logged_in(&mut manager, &mut s);
    assert_eq!(send(&mut session, &mut manager, &mut s, "DELE 2\r\n"), "+OK message 2 deleted\r\n");
    assert_eq!(send(&mut session, &mut manager, &mut s, "QUIT\r\n"), "+OK Bye!\r\n");
    assert_eq!(s.removed, vec!["Maildir/alice/cur/2".to_string()]);
    let lock = session.finish().unwrap();
    manager.unlock_mailbox(lock.username());
    let mut again = logged_in(&mut manager, &mut s);
    assert_eq!(
        send(&mut again, &mut manager, &mut s, "LIST\r\n"),
        "+OK 1 messages (200 octets)\r\n1 200\r\n.\r\n"
    );
}

#[test]
fn out_of_state_command() {
    let mut manager = SessionManager::new();
    let mut s = store();
    let mut session = Session::new();
    assert_eq!(
        send(&mut session, &mut manager, &mut s, "LIST\r\n"),
        "-ERR Session not in Transaction state\r\n"
    );
    assert_eq!(
        send(&mut session, &mut manager, &mut s, "PASS secret\r\n"),
        "-ERR Session not in AuthorizationWithUser state\r\n"
    );
}

#[test]
fn transaction_refuses_authorization_commands() {
    let mut manager = SessionManager::new();
    let mut s = store();
    let mut session = logged_in(&mut manager, &mut s);
    assert_eq!(
        send(&mut session, &mut manager, &mut s, "USER bob\r\n"),
        "-ERR Session not in Authorization state\r\n"
    );
    assert_eq!(
        send(&mut session, &mut manager, &mut s, "PASS x\r\n"),
        "-ERR Session not in Authorization state\r\n"
    );
    assert_eq!(send(&mut session, &mut manager, &mut s, "NOOP\r\n"), "+OK NOOP\r\n");
    assert_eq!(send(&mut session, &mut manager, &mut s, "APOP\r\n"), "+OK APOP\r\n");
}

#[test]
fn one_reply_per_command_plus_greeting() {
    let mut manager = SessionManager::new();
    let mut s = store();
    let mut session = Session::new();
    let lines = [
        "NOOP", "USER bob", "USER alice", "PASS nope", "PASS secret", "LIST", "LIST 1", "RETR 2",
        "DELE 1", "DELE 1", "LIST 1", "RSET", "BOGUS", "QUIT",
    ];
    let mut sent = vec![Session::greeting().to_wire()];
    for l in lines.iter() {
        let (out, closed) = exchange(&mut session, &mut manager, &mut s, l);
        sent.push(out);
        if closed {
            break;
        }
    }
    assert_eq!(sent.len(), lines.len() + 1);
    for reply in &sent {
        assert!(reply.starts_with("+OK") || reply.starts_with("-ERR"));
    }
}

#[test]
fn list_with_argument() {
    let mut manager = SessionManager::new();
    let mut s = store();
    let mut session = logged_in(&mut manager, &mut s);
    assert_eq!(send(&mut session, &mut manager, &mut s, "LIST 2\r\n"), "+OK 2 300\r\n");
    assert_eq!(send(&mut session, &mut manager, &mut s, "LIST 3\r\n"), "-ERR no such message\r\n");
    assert_eq!(send(&mut session, &mut manager, &mut s, "LIST 0\r\n"), "-ERR no such message\r\n");
    send(&mut session, &mut manager, &mut s, "DELE 2\r\n");
    assert_eq!(
        send(&mut session, &mut manager, &mut s, "LIST 2\r\n"),
        "-ERR message 2 already deleted\r\n"
    );
}

#[test]
fn retrieve_message() {
    let mut manager = SessionManager::new();
    let mut s = store();
    s.messages[0].1 = "Subject: hi\r\n\r\n.leading dot\r\n".to_string();
    let mut session = logged_in(&mut manager, &mut s);
    assert_eq!(
        send(&mut session, &mut manager, &mut s, "RETR 1\r\n"),
        "+OK 29 octets\r\nSubject: hi\r\n\r\n..leading dot\r\n.\r\n"
    );
    assert_eq!(send(&mut session, &mut manager, &mut s, "RETR 9\r\n"), "-ERR no such message\r\n");
    send(&mut session, &mut manager, &mut s, "DELE 1\r\n");
    assert_eq!(
        send(&mut session, &mut manager, &mut s, "RETR 1\r\n"),
        "-ERR message 1 already deleted\r\n"
    );
}

#[test]
fn retrieve_failure_becomes_error_reply() {
    let mut manager = SessionManager::new();
    let mut s = store();
    let session = logged_in(&mut manager, &mut s);
    let a = session.on_message(1, Err(MailDirError::IoError("disk on fire".to_string())));
    match a {
        Action::Reply(r) => assert_eq!(r.to_wire(), "-ERR I/O error: disk on fire\r\n"),
        _ => panic!("expected a reply"),
    }
}

#[test]
fn delete_out_of_range() {
    let mut manager = SessionManager::new();
    let mut s = store();
    let mut session = logged_in(&mut manager, &mut s);
    assert_eq!(send(&mut session, &mut manager, &mut s, "DELE 0\r\n"), "-ERR message does not exist\r\n");
    assert_eq!(send(&mut session, &mut manager, &mut s, "DELE 3\r\n"), "-ERR message does not exist\r\n");
    assert_eq!(send(&mut session, &mut manager, &mut s, "DELE 1\r\n"), "+OK message 1 deleted\r\n");
    assert_eq!(
        send(&mut session, &mut manager, &mut s, "DELE 1\r\n"),
        "-ERR message 1 already deleted\r\n"
    );
}

#[test]
fn abrupt_end_removes_nothing() {
    let mut manager = SessionManager::new();
    let mut s = store();
    let mut session = logged_in(&mut manager, &mut s);
    send(&mut session, &mut manager, &mut s, "DELE 1\r\n");
    send(&mut session, &mut manager, &mut s, "DELE 2\r\n");
    let lock = session.finish().unwrap();
    assert_eq!(lock.username(), "alice");
    manager.unlock_mailbox(lock.username());
    assert!(s.removed.is_empty());
    assert_eq!(s.messages.len(), 2);
    let mut again = logged_in(&mut manager, &mut s);
    assert_eq!(
        send(&mut again, &mut manager, &mut s, "LIST\r\n"),
        "+OK 2 messages (500 octets)\r\n1 200\r\n2 300\r\n.\r\n"
    );
}

#[test]
fn commit_removes_exactly_the_marked() {
    let mut manager = SessionManager::new();
    let mut s = store();
    s.messages.push(("Maildir/alice/cur/3".to_string(), "z".to_string()));
    let mut session = logged_in(&mut manager, &mut s);
    send(&mut session, &mut manager, &mut s, "DELE 3\r\n");
    send(&mut session, &mut manager, &mut s, "DELE 1\r\n");
    send(&mut session, &mut manager, &mut s, "QUIT\r\n");
    assert_eq!(
        s.removed,
        vec!["Maildir/alice/new/1".to_string(), "Maildir/alice/cur/3".to_string()]
    );
    assert_eq!(s.messages.len(), 1);
    assert_eq!(s.messages[0].0, "Maildir/alice/cur/2");
}

#[test]
fn snapshot_failure_releases_the_lock() {
    let mut manager = SessionManager::new();
    let mut s = store();
    s.snapshot_error = Some("no such directory".to_string());
    let mut session = Session::new();
    send(&mut session, &mut manager, &mut s, "USER alice\r\n");
    assert_eq!(
        send(&mut session, &mut manager, &mut s, "PASS secret\r\n"),
        "-ERR Failed to access mailbox: I/O error: no such directory\r\n"
    );
    assert!(matches!(session.state(), SessionState::AuthorizationWithUser(_)));
    assert!(manager.try_lock_mailbox("alice").is_ok());
}

#[test]
fn user_replaces_pending_user() {
    let mut manager = SessionManager::new();
    let mut s = store();
    let mut session = Session::new();
    send(&mut session, &mut manager, &mut s, "USER bob\r\n");
    send(&mut session, &mut manager, &mut s, "USER alice\r\n");
    assert!(matches!(session.state(), SessionState::AuthorizationWithUser(u) if u == "alice"));
    assert_eq!(send(&mut session, &mut manager, &mut s, "PASS secret\r\n"), "+OK Pass accepted\r\n");
    assert!(matches!(session.state(), SessionState::Transaction(u) if u == "alice"));
}

#[test]
fn parse_errors_are_replies() {
    let mut manager = SessionManager::new();
    let mut s = store();
    let mut session = Session::new();
    assert_eq!(send(&mut session, &mut manager, &mut s, "HELO\r\n"), "-ERR Unknown command\r\n");
    assert_eq!(
        send(&mut session, &mut manager, &mut s, "RETR one\r\n"),
        "-ERR error parsing ID: invalid digit found in string\r\n"
    );
}

#[test]
fn lock_table_grants_once() {
    let mut manager = SessionManager::new();
    let a = manager.try_lock_mailbox("alice");
    assert!(a.is_ok());
    assert_eq!(manager.try_lock_mailbox("alice").err(), Some("Mailbox already locked"));
    assert!(manager.try_lock_mailbox("bob").is_ok());
    manager.unlock_mailbox("alice");
    manager.unlock_mailbox("alice");
    assert!(manager.try_lock_mailbox("alice").is_ok());
    assert!(manager.try_lock_mailbox("bob").is_err());
}

#[test]
fn status_of_replies() {
    match Session::greeting().status {
        StatusIndicator::Positive(t) => assert_eq!(t, "POP3 server ready"),
        StatusIndicator::Negative(_) => panic!("greeting is positive"),
    }
}
