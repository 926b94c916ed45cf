//! One client connection: the state machine that decides every reply, and
//! asks the code around it for the disk, lock-table and credential work.
use crate::lock_table::MailboxLock;
use crate::maildir::{partition_dir, MailDir, MailDirError, MailEntry};
use crate::model::{
    after_credentials, after_lock, after_mailbox, after_message, doomed, kept, listing_line,
    list_reply, no_marks, octets, step, Effect, Phase, ReplyView, SessionModel,
};
use crate::protocol::{parse_command, Command, Response, StatusIndicator};
use crate::text::{decimal, message_lines, push_decimal, views};
use vstd::prelude::*;

verus! {

/// The phase of a session, with the user name it carries.
#[derive(Debug)]
pub enum SessionState {
    Authorization,
    AuthorizationWithUser(String),
    Update(String),
    Transaction(String),
}

impl View for SessionState {
    type V = Phase;

    open spec fn view(&self) -> Phase {
        match self {
            SessionState::Authorization => Phase::Authorization,
            SessionState::AuthorizationWithUser(u) => Phase::AuthorizationWithUser(u@),
            SessionState::Update(u) => Phase::Update(u@),
            SessionState::Transaction(u) => Phase::Transaction(u@),
        }
    }
}

pub open spec fn reply_view(r: &Response) -> ReplyView {
    ReplyView { ok: r.status.is_ok(), text: r.status.text(), body: r.body_lines() }
}

/// What the code around a session is to do next; see `Effect`.
pub enum Action {
    Reply(Response),
    Close(Response),
    CheckCredentials(String, String),
    AcquireLock(String),
    LoadMailbox(MailboxLock, MailDir),
    ReadMessage(u64, String),
    ReleaseLock(MailboxLock, Response),
    Update(Response, Vec<String>),
}

impl Action {
    pub open spec fn effect(&self) -> Effect {
        match self {
            Action::Reply(r) => Effect::Reply(reply_view(r)),
            Action::Close(r) => Effect::Close(reply_view(r)),
            Action::CheckCredentials(u, p) => Effect::CheckCredentials(u@, p@),
            Action::AcquireLock(u) => Effect::AcquireLock(u@),
            Action::LoadMailbox(l, md) => if md.user() == l.user() && md.new_dir() == partition_dir(
                l.user(),
                "new"@,
            ) && md.cur_dir() == partition_dir(l.user(), "cur"@) && md.snapshot().len() == 0 {
                Effect::LoadMailbox(l.user())
            } else {
                Effect::Malformed
            },
            Action::ReadMessage(id, path) => Effect::ReadMessage(*id, path@),
            Action::ReleaseLock(l, r) => Effect::ReleaseLock(l.user(), reply_view(r)),
            Action::Update(r, paths) => Effect::Update(reply_view(r), views(paths@)),
        }
    }
}

/// Invariants of a session: the lock is held exactly in TRANSACTION and
/// UPDATE, and for the session's user; there is a snapshot exactly in
/// TRANSACTION; the deletion marks cover exactly the snapshot.
pub open spec fn consistent(m: SessionModel, lock: Option<Seq<char>>) -> bool {
    match m.phase {
        Phase::Authorization => lock is None && m.snapshot.len() == 0 && m.marks.len() == 0,
        Phase::AuthorizationWithUser(_) => lock is None && m.snapshot.len() == 0 && m.marks.len()
            == 0,
        Phase::Transaction(u) => lock == Some(u) && m.marks.len() == m.snapshot.len(),
        Phase::Update(u) => lock == Some(u) && m.snapshot.len() == 0 && m.marks.len() == 0,
    }
}

/// One client connection.
pub struct Session {
    state: SessionState,
    mailbox_lock: Option<MailboxLock>,
    maildir: Option<MailDir>,
    messages_marked_for_deletion: Vec<bool>,
}

fn status_reply(ok: bool, text: String) -> (r: Response)
    ensures
        reply_view(&r) == (ReplyView { ok, text: text@, body: None }),
{
    if ok {
        Response { status: StatusIndicator::Positive(text), body: None }
    } else {
        Response { status: StatusIndicator::Negative(text), body: None }
    }
}

fn reply(ok: bool, text: String) -> (a: Action)
    ensures
        a.effect() == Effect::Reply(ReplyView { ok, text: text@, body: None }),
{
    Action::Reply(status_reply(ok, text))
}

fn message_text(id: u64, suffix: &str) -> (r: String)
    ensures
        r@ == "message "@ + decimal(id as nat) + suffix@,
{
    let mut t = "message ".to_owned();
    push_decimal(&mut t, id as u128);
    t.append(suffix);
    t
}

fn listing_text(ordinal: u64, size: u64) -> (r: String)
    ensures
        r@ == listing_line((ordinal as int, size)),
{
    let mut t = String::new();
    push_decimal(&mut t, ordinal as u128);
    t.append(" ");
    push_decimal(&mut t, size as u128);
    proof {
        reveal_strlit(" ");
    }
    t
}

fn marked_at(v: &Vec<bool>, at: usize) -> (r: Vec<bool>)
    requires
        at < v@.len(),
    ensures
        r@ == v@.update(at as int, true),
{
    let mut out: Vec<bool> = Vec::new();
    let mut i: usize = 0;
    while i < v.len()
        invariant
            at < v@.len(),
            i <= v@.len(),
            out@ == v@.update(at as int, true).subrange(0, i as int),
        decreases v.len() - i,
    {
        out.push(if i == at {
            true
        } else {
            v[i]
        });
        i = i + 1;
        assert(out@ =~= v@.update(at as int, true).subrange(0, i as int));
    }
    assert(v@.update(at as int, true).subrange(0, v@.len() as int) =~= v@.update(at as int, true));
    out
}

fn unmarked(n: usize) -> (r: Vec<bool>)
    ensures
        r@ == no_marks(n as nat),
{
    let mut out: Vec<bool> = Vec::new();
    let mut i: usize = 0;
    while i < n
        invariant
            i <= n,
            out@ == no_marks(i as nat),
        decreases n - i,
    {
        out.push(false);
        i = i + 1;
        assert(out@ =~= no_marks(i as nat));
    }
    out
}

proof fn lemma_kept_step(snapshot: Seq<MailEntry>, marks: Seq<bool>, i: int)
    requires
        0 <= i < snapshot.len(),
        marks.len() == snapshot.len(),
    ensures
        kept(snapshot.take(i + 1), marks.take(i + 1)) == if marks[i] {
            kept(snapshot.take(i), marks.take(i))
        } else {
            kept(snapshot.take(i), marks.take(i)).push((i + 1, snapshot[i].size))
        },
        doomed(snapshot.take(i + 1), marks.take(i + 1)) == if marks[i] {
            doomed(snapshot.take(i), marks.take(i)).push(snapshot[i].path@)
        } else {
            doomed(snapshot.take(i), marks.take(i))
        },
{
    assert(snapshot.take(i + 1).drop_last() =~= snapshot.take(i));
    assert(marks.take(i + 1).drop_last() =~= marks.take(i));
}

proof fn lemma_kept_len(snapshot: Seq<MailEntry>, marks: Seq<bool>)
    ensures
        kept(snapshot, marks).len() <= snapshot.len(),
    decreases snapshot.len(),
{
    if snapshot.len() > 0 && marks.len() > 0 {
        lemma_kept_len(snapshot.drop_last(), marks.drop_last());
    }
}

/// The reply to LIST without an argument.
fn list_all(md: &MailDir, marks: &Vec<bool>) -> (r: Response)
    requires
        marks@.len() == md.snapshot().len(),
    ensures
        reply_view(&r) == list_reply(md.snapshot(), marks@),
{
    let ghost snap = md.snapshot();
    let n = md.len();
    let mut lines: Vec<String> = Vec::new();
    let mut count: usize = 0;
    let mut total: u128 = 0;
    let mut i: usize = 0;
    proof {
        assert(snap.take(0) =~= Seq::<MailEntry>::empty());
        assert(marks@.take(0) =~= Seq::<bool>::empty());
        assert(views(lines@) =~= Seq::<Seq<char>>::empty());
    }
    while i < n
        invariant
            n == snap.len(),
            snap == md.snapshot(),
            marks@.len() == n,
            i <= n,
            count == kept(snap.take(i as int), marks@.take(i as int)).len(),
            total == octets(kept(snap.take(i as int), marks@.take(i as int))),
            total <= i * 0xffff_ffff_ffff_ffffu128,
            views(lines@) == kept(snap.take(i as int), marks@.take(i as int)).map_values(
                |e: (int, u64)| listing_line(e),
            ),
        decreases n - i,
    {
        let ghost before = kept(snap.take(i as int), marks@.take(i as int));
        proof {
            lemma_kept_step(snap, marks@, i as int);
            lemma_kept_len(snap.take(i as int), marks@.take(i as int));
        }
        if !marks[i] {
            let e = md.at(i);
            let line = listing_text((i + 1) as u64, e.size);
            proof {
                let after = before.push((i + 1, snap[i as int].size));
                assert(after.drop_last() =~= before);
                assert(views(lines@.push(line)) =~= views(lines@).push(line@));
                assert(after.map_values(|e: (int, u64)| listing_line(e)) =~= before.map_values(
                    |e: (int, u64)| listing_line(e),
                ).push(listing_line((i + 1, snap[i as int].size))));
            }
            lines.push(line);
            count = count + 1;
            total = total + e.size as u128;
        }
        i = i + 1;
    }
    proof {
        assert(snap.take(n as int) =~= snap);
        assert(marks@.take(n as int) =~= marks@);
    }
    let mut text = String::new();
    push_decimal(&mut text, count as u128);
    text.append(" messages (");
    push_decimal(&mut text, total);
    text.append(" octets)");
    Response { status: StatusIndicator::Positive(text), body: Some(lines) }
}

/// The paths of the messages marked for deletion.
fn doomed_paths(md: &MailDir, marks: &Vec<bool>) -> (r: Vec<String>)
    requires
        marks@.len() == md.snapshot().len(),
    ensures
        views(r@) == doomed(md.snapshot(), marks@),
{
    let ghost snap = md.snapshot();
    let n = md.len();
    let mut paths: Vec<String> = Vec::new();
    let mut i: usize = 0;
    proof {
        assert(snap.take(0) =~= Seq::<MailEntry>::empty());
        assert(marks@.take(0) =~= Seq::<bool>::empty());
        assert(views(paths@) =~= Seq::<Seq<char>>::empty());
    }
    while i < n
        invariant
            n == snap.len(),
            snap == md.snapshot(),
            marks@.len() == n,
            i <= n,
            views(paths@) == doomed(snap.take(i as int), marks@.take(i as int)),
        decreases n - i,
    {
        proof {
            lemma_kept_step(snap, marks@, i as int);
        }
        if marks[i] {
            let p = md.at(i).path.clone();
            proof {
                assert(views(paths@.push(p)) =~= views(paths@).push(p@));
            }
            paths.push(p);
        }
        i = i + 1;
    }
    proof {
        assert(snap.take(n as int) =~= snap);
        assert(marks@.take(n as int) =~= marks@);
    }
    paths
}

impl Session {
    #[verifier::type_invariant]
    spec fn holds_together(self) -> bool {
        &&& consistent(self.model(), self.lock_user())
        &&& (self.state is Transaction <==> self.maildir is Some)
        &&& match self.maildir {
            Some(md) => md.user() == self.state->Transaction_0@,
            None => true,
        }
    }

    /// The session as the protocol sees it.
    pub closed spec fn model(&self) -> SessionModel {
        SessionModel {
            phase: self.state@,
            snapshot: match self.maildir {
                Some(md) => md.snapshot(),
                None => seq![],
            },
            marks: self.messages_marked_for_deletion@,
        }
    }

    /// The user whose mailbox lock the session holds, if it holds one.
    pub closed spec fn lock_user(&self) -> Option<Seq<char>> {
        match self.mailbox_lock {
            Some(l) => Some(l.user()),
            None => None,
        }
    }

    /// A session that has just greeted its client.
    pub fn new() -> (r: Session)
        ensures
            r.model() == (SessionModel { phase: Phase::Authorization, snapshot: seq![], marks: seq![] }),
            r.lock_user() is None,
    {
        Session {
            state: SessionState::Authorization,
            mailbox_lock: None,
            maildir: None,
            messages_marked_for_deletion: Vec::new(),
        }
    }

    /// The first reply of every session.
    pub fn greeting() -> (r: Response)
        ensures
            reply_view(&r) == (ReplyView { ok: true, text: "POP3 server ready"@, body: None }),
    {
        status_reply(true, "POP3 server ready".to_owned())
    }

    fn authorization_command(&mut self, cmd: Command) -> (a: Action)
        requires
            old(self).model().phase is Authorization || old(self).model().phase is AuthorizationWithUser,
        ensures
            (final(self).model(), a.effect()) == step(old(self).model(), cmd@),
            final(self).lock_user() == old(self).lock_user(),
    {
        proof {
            use_type_invariant(&*self);
        }
        match cmd {
            Command::User(name) => {
                self.state = SessionState::AuthorizationWithUser(name);
                reply(true, "User accepted".to_owned())
            },
            Command::Pass(p) => match &self.state {
                SessionState::AuthorizationWithUser(u) => Action::CheckCredentials(u.clone(), p),
                _ => reply(false, "Session not in AuthorizationWithUser state".to_owned()),
            },
            Command::Apop => reply(true, "APOP".to_owned()),
            Command::Quit => Action::Close(status_reply(true, "Bye!".to_owned())),
            _ => reply(false, "Session not in Transaction state".to_owned()),
        }
    }

    fn transaction_command(&mut self, cmd: Command) -> (a: Action)
        requires
            old(self).model().phase is Transaction,
        ensures
            (final(self).model(), a.effect()) == step(old(self).model(), cmd@),
            consistent(final(self).model(), final(self).lock_user()),
    {
        proof {
            use_type_invariant(&*self);
        }
        let user = match &self.state {
            SessionState::Transaction(u) => u.clone(),
            _ => {
                proof {
                    assert(false);
                }
                String::new()
            },
        };
        let md = match &self.maildir {
            Some(md) => md,
            None => {
                proof {
                    assert(false);
                }
                return reply(false, String::new());
            },
        };
        let n = md.len() as u64;
        let a = match cmd {
            Command::User(_) => reply(false, "Session not in Authorization state".to_owned()),
            Command::Pass(_) => reply(false, "Session not in Authorization state".to_owned()),
            Command::Apop => reply(true, "APOP".to_owned()),
            Command::Noop => reply(true, "NOOP".to_owned()),
            Command::List(None) => Action::Reply(list_all(md, &self.messages_marked_for_deletion)),
            Command::List(Some(id)) => {
                if id < 1 || id > n {
                    reply(false, "no such message".to_owned())
                } else if self.messages_marked_for_deletion[(id - 1) as usize] {
                    reply(false, message_text(id, " already deleted"))
                } else {
                    reply(true, listing_text(id, md.at((id - 1) as usize).size))
                }
            },
            Command::Retr(id) => {
                if id < 1 || id > n {
                    reply(false, "no such message".to_owned())
                } else if self.messages_marked_for_deletion[(id - 1) as usize] {
                    reply(false, message_text(id, " already deleted"))
                } else {
                    Action::ReadMessage(id, md.at((id - 1) as usize).path.clone())
                }
            },
            Command::Dele(id) => {
                if id < 1 || id > n {
                    reply(false, "message does not exist".to_owned())
                } else if self.messages_marked_for_deletion[(id - 1) as usize] {
                    reply(false, message_text(id, " already deleted"))
                } else {
                    let marks = marked_at(&self.messages_marked_for_deletion, (id - 1) as usize);
                    self.messages_marked_for_deletion = marks;
                    reply(true, message_text(id, " deleted"))
                }
            },
            Command::Rset => {
                let marks = unmarked(md.len());
                self.messages_marked_for_deletion = marks;
                reply(true, String::new())
            },
            Command::Quit => {
                let paths = doomed_paths(md, &self.messages_marked_for_deletion);
                let mut taken = Session::new();
                std::mem::swap(self, &mut taken);
                proof {
                    use_type_invariant(&taken);
                }
                let Session { mailbox_lock, .. } = taken;
                *self = Session {
                    state: SessionState::Update(user),
                    mailbox_lock,
                    maildir: None,
                    messages_marked_for_deletion: Vec::new(),
                };
                Action::Update(status_reply(true, "Bye!".to_owned()), paths)
            },
        };
        proof {
            use_type_invariant(&*self);
        }
        a
    }

    /// Handles one command.
    pub fn handle_command(&mut self, cmd: Command) -> (a: Action)
        ensures
            (final(self).model(), a.effect()) == step(old(self).model(), cmd@),
            consistent(final(self).model(), final(self).lock_user()),
    {
        proof {
            use_type_invariant(&*self);
        }
        let a = match &self.state {
            SessionState::Update(_) => {
                return reply(false, "Session not in Transaction state".to_owned());
            },
            SessionState::Transaction(_) => self.transaction_command(cmd),
            _ => self.authorization_command(cmd),
        };
        proof {
            use_type_invariant(&*self);
        }
        a
    }

    /// Handles one line read from the client.
    pub fn handle_line(&mut self, line: &str) -> (a: Action)
        ensures
            match parse_command(line@) {
                Ok(c) => (final(self).model(), a.effect()) == step(old(self).model(), c),
                Err(t) => final(self).model() == old(self).model() && a.effect() == Effect::Reply(
                    ReplyView { ok: false, text: t, body: None },
                ),
            },
            consistent(final(self).model(), final(self).lock_user()),
    {
        proof {
            use_type_invariant(&*self);
        }
        match Command::parse(line) {
            Ok(cmd) => self.handle_command(cmd),
            Err(status) => Action::Reply(Response { status, body: None }),
        }
    }

    /// Takes the result of checking the credentials that the session asked
    /// about.
    pub fn on_credentials(&self, valid: bool) -> (a: Action)
        ensures
            (self.model(), a.effect()) == after_credentials(self.model(), valid),
    {
        match &self.state {
            SessionState::AuthorizationWithUser(u) => if valid {
                Action::AcquireLock(u.clone())
            } else {
                reply(false, "Username or password are incorrect".to_owned())
            },
            _ => reply(false, "Session not in AuthorizationWithUser state".to_owned()),
        }
    }

    /// Takes the answer of the lock table.
    pub fn on_lock(&self, granted: Result<MailboxLock, &str>) -> (a: Action)
        ensures
            (self.model(), a.effect()) == after_lock(
                self.model(),
                match granted {
                    Ok(l) => Some(l.user()),
                    Err(_) => None,
                },
            ),
    {
        match granted {
            Err(_) => reply(false, "Mailbox already in use".to_owned()),
            Ok(lock) => match &self.state {
                SessionState::AuthorizationWithUser(u) => if lock.username().to_owned() == *u {
                    let md = MailDir::new(u.as_str());
                    Action::LoadMailbox(lock, md)
                } else {
                    Action::ReleaseLock(
                        lock,
                        status_reply(false, "Session not in Authorization state".to_owned()),
                    )
                },
                _ => Action::ReleaseLock(
                    lock,
                    status_reply(false, "Session not in Authorization state".to_owned()),
                ),
            },
        }
    }

    /// Takes the snapshot that the session asked for, or why it could not
    /// be taken, together with the lock held for it.
    pub fn on_mailbox(&mut self, lock: MailboxLock, loaded: Result<MailDir, MailDirError>) -> (a: Action)
        ensures
            (final(self).model(), a.effect()) == after_mailbox(
                old(self).model(),
                lock.user(),
                match loaded {
                    Ok(md) => Ok((md.user(), md.snapshot())),
                    Err(e) => Err(e.message_text()),
                },
            ),
            consistent(final(self).model(), final(self).lock_user()),
    {
        proof {
            use_type_invariant(&*self);
        }
        let a = match loaded {
            Err(e) => {
                let mut t = "Failed to access mailbox: ".to_owned();
                let reason = e.message();
                t.append(reason.as_str());
                Action::ReleaseLock(lock, status_reply(false, t))
            },
            Ok(md) => {
                let owner = md.username().to_owned();
                let holder = lock.username().to_owned();
                let fits = match &self.state {
                    SessionState::AuthorizationWithUser(u) => *u == holder && owner == holder,
                    _ => false,
                };
                if fits {
                    let marks = unmarked(md.len());
                    let name = holder;
                    *self = Session {
                        state: SessionState::Transaction(name),
                        mailbox_lock: Some(lock),
                        maildir: Some(md),
                        messages_marked_for_deletion: marks,
                    };
                    reply(true, "Pass accepted".to_owned())
                } else {
                    Action::ReleaseLock(
                        lock,
                        status_reply(false, "Session not in Authorization state".to_owned()),
                    )
                }
            },
        };
        proof {
            use_type_invariant(&*self);
        }
        a
    }

    /// Takes the text of message `id` that the session asked for, or why
    /// it could not be read.
    pub fn on_message(&self, id: u64, content: Result<String, MailDirError>) -> (a: Action)
        ensures
            (self.model(), a.effect()) == after_message(
                self.model(),
                id,
                match content {
                    Ok(text) => Ok(text@),
                    Err(e) => Err(e.message_text()),
                },
            ),
    {
        proof {
            use_type_invariant(self);
        }
        let md = match &self.maildir {
            Some(md) => md,
            None => {
                return reply(false, "no such message".to_owned());
            },
        };
        if id < 1 || id > md.len() as u64 || self.messages_marked_for_deletion[(id - 1) as usize] {
            return reply(false, "no such message".to_owned());
        }
        match content {
            Ok(text) => {
                let mut t = String::new();
                push_decimal(&mut t, md.at((id - 1) as usize).size as u128);
                t.append(" octets");
                let body = message_lines(text.as_str());
                Action::Reply(Response { status: StatusIndicator::Positive(t), body: Some(body) })
            },
            Err(e) => reply(false, e.message()),
        }
    }

    /// The phase of the session.
    pub fn state(&self) -> (r: &SessionState)
        ensures
            r@ == self.model().phase,
    {
        &self.state
    }

    /// Ends the session, however it ends, and hands back the lock it held,
    /// for the lock table; nothing is removed from the mailbox.
    pub fn finish(self) -> (r: Option<MailboxLock>)
        ensures
            match r {
                Some(l) => self.lock_user() == Some(l.user()),
                None => self.lock_user() is None,
            },
    {
        self.mailbox_lock
    }
}

} // verus!
