//! The session state machine as mathematics: what each command and each
//! report of outside work does to a session, and the laws that follow.
use crate::maildir::MailEntry;
use crate::protocol::{parse_command, CommandView};
use crate::text::{decimal, text_lines};
use vstd::prelude::*;

verus! {

/// Where a session stands, with the user name it carries.
pub enum Phase {
    Authorization,
    AuthorizationWithUser(Seq<char>),
    Transaction(Seq<char>),
    Update(Seq<char>),
}

/// A session as the protocol sees it: its phase, the snapshot of the
/// mailbox (empty outside TRANSACTION) and, per message, whether it is
/// marked for deletion.
pub struct SessionModel {
    pub phase: Phase,
    pub snapshot: Seq<MailEntry>,
    pub marks: Seq<bool>,
}

/// A reply: status, status text, and the lines of a multi-line body.
pub struct ReplyView {
    pub ok: bool,
    pub text: Seq<char>,
    pub body: Option<Seq<Seq<char>>>,
}

/// What one step of a session asks of the code around it.
pub enum Effect {
    /// Send the reply and read the next line.
    Reply(ReplyView),
    /// Send the reply and end the session.
    Close(ReplyView),
    /// Check the user name and password, then report the result.
    CheckCredentials(Seq<char>, Seq<char>),
    /// Ask the lock table for this user's mailbox, then report the result.
    AcquireLock(Seq<char>),
    /// Take a snapshot of this user's mailbox (the lock for it is held),
    /// then report it.
    LoadMailbox(Seq<char>),
    /// Read the stored message with this ordinal, from this path.
    ReadMessage(u64, Seq<char>),
    /// Hand this user's mailbox lock back, then send the reply.
    ReleaseLock(Seq<char>, ReplyView),
    /// Send the reply, remove these stored messages, hand the lock back and
    /// end the session.
    Update(ReplyView, Seq<Seq<char>>),
    /// Not a value that a step produces.
    Malformed,
}

pub open spec fn ok_reply(text: Seq<char>) -> Effect {
    Effect::Reply(ReplyView { ok: true, text, body: None })
}

pub open spec fn err_reply(text: Seq<char>) -> Effect {
    Effect::Reply(ReplyView { ok: false, text, body: None })
}

pub open spec fn not_transaction_text() -> Seq<char> {
    "Session not in Transaction state"@
}

pub open spec fn not_authorization_text() -> Seq<char> {
    "Session not in Authorization state"@
}

pub open spec fn not_user_given_text() -> Seq<char> {
    "Session not in AuthorizationWithUser state"@
}

pub open spec fn bad_credentials_text() -> Seq<char> {
    "Username or password are incorrect"@
}

pub open spec fn in_use_text() -> Seq<char> {
    "Mailbox already in use"@
}

pub open spec fn no_such_message_text() -> Seq<char> {
    "no such message"@
}

pub open spec fn bye_text() -> Seq<char> {
    "Bye!"@
}

pub open spec fn already_deleted_text(id: u64) -> Seq<char> {
    "message "@ + decimal(id as nat) + " already deleted"@
}

pub open spec fn deleted_text(id: u64) -> Seq<char> {
    "message "@ + decimal(id as nat) + " deleted"@
}

pub open spec fn no_marks(n: nat) -> Seq<bool> {
    Seq::new(n, |i: int| false)
}

/// The messages not marked for deletion, as (ordinal, size), in ordinal
/// order.
pub open spec fn kept(snapshot: Seq<MailEntry>, marks: Seq<bool>) -> Seq<(int, u64)>
    decreases snapshot.len(),
{
    if snapshot.len() == 0 || marks.len() == 0 {
        seq![]
    } else {
        let rest = kept(snapshot.drop_last(), marks.drop_last());
        if marks.last() {
            rest
        } else {
            rest.push((snapshot.len() as int, snapshot.last().size))
        }
    }
}

/// The sum of the sizes in a listing.
pub open spec fn octets(listing: Seq<(int, u64)>) -> nat
    decreases listing.len(),
{
    if listing.len() == 0 {
        0
    } else {
        octets(listing.drop_last()) + listing.last().1 as nat
    }
}

/// The total size of the messages not marked for deletion.
pub open spec fn unmarked_octets(snapshot: Seq<MailEntry>, marks: Seq<bool>) -> nat
    decreases snapshot.len(),
{
    if snapshot.len() == 0 || marks.len() == 0 {
        0
    } else {
        unmarked_octets(snapshot.drop_last(), marks.drop_last()) + if marks.last() {
            0
        } else {
            snapshot.last().size as nat
        }
    }
}

/// `<ordinal> <size>`
pub open spec fn listing_line(entry: (int, u64)) -> Seq<char> {
    decimal(entry.0 as nat) + seq![' '] + decimal(entry.1 as nat)
}

/// The reply to LIST without an argument.
pub open spec fn list_reply(snapshot: Seq<MailEntry>, marks: Seq<bool>) -> ReplyView {
    let k = kept(snapshot, marks);
    ReplyView {
        ok: true,
        text: decimal(k.len()) + " messages ("@ + decimal(octets(k)) + " octets)"@,
        body: Some(k.map_values(|e: (int, u64)| listing_line(e))),
    }
}

/// The paths of the messages marked for deletion, in ordinal order.
pub open spec fn doomed(snapshot: Seq<MailEntry>, marks: Seq<bool>) -> Seq<Seq<char>>
    decreases snapshot.len(),
{
    if snapshot.len() == 0 || marks.len() == 0 {
        seq![]
    } else {
        let rest = doomed(snapshot.drop_last(), marks.drop_last());
        if marks.last() {
            rest.push(snapshot.last().path@)
        } else {
            rest
        }
    }
}

pub open spec fn in_range(m: SessionModel, id: u64) -> bool {
    1 <= id <= m.snapshot.len()
}

/// What a session does with a command: its next state, and what it asks
/// for.
pub open spec fn step(m: SessionModel, cmd: CommandView) -> (SessionModel, Effect) {
    let not_tx = err_reply(not_transaction_text());
    match m.phase {
        Phase::Update(_) => (m, not_tx),
        Phase::Authorization => match cmd {
            CommandView::User(n) => (
                SessionModel { phase: Phase::AuthorizationWithUser(n), ..m },
                ok_reply("User accepted"@),
            ),
            CommandView::Pass(_) => (m, err_reply(not_user_given_text())),
            CommandView::Apop => (m, ok_reply("APOP"@)),
            CommandView::Quit => (m, Effect::Close(ReplyView { ok: true, text: bye_text(), body: None })),
            _ => (m, not_tx),
        },
        Phase::AuthorizationWithUser(u) => match cmd {
            CommandView::User(n) => (
                SessionModel { phase: Phase::AuthorizationWithUser(n), ..m },
                ok_reply("User accepted"@),
            ),
            CommandView::Pass(p) => (m, Effect::CheckCredentials(u, p)),
            CommandView::Apop => (m, ok_reply("APOP"@)),
            CommandView::Quit => (m, Effect::Close(ReplyView { ok: true, text: bye_text(), body: None })),
            _ => (m, not_tx),
        },
        Phase::Transaction(u) => match cmd {
            CommandView::User(_) => (m, err_reply(not_authorization_text())),
            CommandView::Pass(_) => (m, err_reply(not_authorization_text())),
            CommandView::Apop => (m, ok_reply("APOP"@)),
            CommandView::Noop => (m, ok_reply("NOOP"@)),
            CommandView::List(None) => (m, Effect::Reply(list_reply(m.snapshot, m.marks))),
            CommandView::List(Some(id)) => if !in_range(m, id) {
                (m, err_reply(no_such_message_text()))
            } else if m.marks[id - 1] {
                (m, err_reply(already_deleted_text(id)))
            } else {
                (m, ok_reply(listing_line((id as int, m.snapshot[id - 1].size))))
            },
            CommandView::Retr(id) => if !in_range(m, id) {
                (m, err_reply(no_such_message_text()))
            } else if m.marks[id - 1] {
                (m, err_reply(already_deleted_text(id)))
            } else {
                (m, Effect::ReadMessage(id, m.snapshot[id - 1].path@))
            },
            CommandView::Dele(id) => if !in_range(m, id) {
                (m, err_reply("message does not exist"@))
            } else if m.marks[id - 1] {
                (m, err_reply(already_deleted_text(id)))
            } else {
                (
                    SessionModel { marks: m.marks.update(id - 1, true), ..m },
                    ok_reply(deleted_text(id)),
                )
            },
            CommandView::Rset => (
                SessionModel { marks: no_marks(m.snapshot.len()), ..m },
                ok_reply(Seq::empty()),
            ),
            CommandView::Quit => (
                SessionModel { phase: Phase::Update(u), snapshot: seq![], marks: seq![] },
                Effect::Update(
                    ReplyView { ok: true, text: bye_text(), body: None },
                    doomed(m.snapshot, m.marks),
                ),
            ),
        },
    }
}

/// The session has been told whether the credentials it asked about hold.
pub open spec fn after_credentials(m: SessionModel, valid: bool) -> (SessionModel, Effect) {
    match m.phase {
        Phase::AuthorizationWithUser(u) => if valid {
            (m, Effect::AcquireLock(u))
        } else {
            (m, err_reply(bad_credentials_text()))
        },
        _ => (m, err_reply(not_user_given_text())),
    }
}

/// The session has been told whether it got the lock (and for which user).
pub open spec fn after_lock(m: SessionModel, granted: Option<Seq<char>>) -> (SessionModel, Effect) {
    match granted {
        None => (m, err_reply(in_use_text())),
        Some(l) => match m.phase {
            Phase::AuthorizationWithUser(u) => if u == l {
                (m, Effect::LoadMailbox(u))
            } else {
                (m, Effect::ReleaseLock(l, ReplyView { ok: false, text: not_authorization_text(), body: None }))
            },
            _ => (m, Effect::ReleaseLock(l, ReplyView { ok: false, text: not_authorization_text(), body: None })),
        },
    }
}

/// The session has been handed the snapshot it asked for (the user it was
/// taken for, and its messages), or why it could not be taken; `l` is the
/// user of the lock it holds meanwhile.
pub open spec fn after_mailbox(
    m: SessionModel,
    l: Seq<char>,
    loaded: Result<(Seq<char>, Seq<MailEntry>), Seq<char>>,
) -> (SessionModel, Effect) {
    match loaded {
        Err(reason) => (
            m,
            Effect::ReleaseLock(
                l,
                ReplyView { ok: false, text: "Failed to access mailbox: "@ + reason, body: None },
            ),
        ),
        Ok((owner, snapshot)) => if m.phase == Phase::AuthorizationWithUser(l) && owner == l {
            (
                SessionModel {
                    phase: Phase::Transaction(l),
                    snapshot,
                    marks: no_marks(snapshot.len()),
                },
                ok_reply("Pass accepted"@),
            )
        } else {
            (m, Effect::ReleaseLock(l, ReplyView { ok: false, text: not_authorization_text(), body: None }))
        },
    }
}

/// The session has been handed the text of message `id`, or why it could
/// not be read.
pub open spec fn after_message(m: SessionModel, id: u64, content: Result<Seq<char>, Seq<char>>) -> (
    SessionModel,
    Effect,
) {
    if m.phase is Transaction && in_range(m, id) && !m.marks[id - 1] {
        match content {
            Ok(text) => (
                m,
                Effect::Reply(
                    ReplyView {
                        ok: true,
                        text: decimal(m.snapshot[id - 1].size as nat) + " octets"@,
                        body: Some(text_lines(text)),
                    },
                ),
            ),
            Err(reason) => (m, err_reply(reason)),
        }
    } else {
        (m, err_reply(no_such_message_text()))
    }
}

/// What the outside work reports, whenever a session asks: whether the
/// credentials hold, whether the lock is granted, the snapshot taken (or why
/// not), the text of a message (or why not).
pub struct Outcomes {
    pub valid: bool,
    pub granted: bool,
    pub loaded: Result<Seq<MailEntry>, Seq<char>>,
    pub content: Result<Seq<char>, Seq<char>>,
}

/// The effect sends exactly one reply.
pub open spec fn carries_reply(e: Effect) -> bool {
    e is Reply || e is Close || e is ReleaseLock || e is Update
}

/// Performs the outside work that `e` asks for, reporting `o`, at most
/// `fuel` times.
pub open spec fn settle(m: SessionModel, e: Effect, o: Outcomes, fuel: nat) -> (SessionModel, Effect)
    decreases fuel,
{
    if fuel == 0 {
        (m, e)
    } else {
        match e {
            Effect::CheckCredentials(_, _) => {
                let (m2, e2) = after_credentials(m, o.valid);
                settle(m2, e2, o, (fuel - 1) as nat)
            },
            Effect::AcquireLock(u) => {
                let (m2, e2) = after_lock(
                    m,
                    if o.granted {
                        Some(u)
                    } else {
                        None
                    },
                );
                settle(m2, e2, o, (fuel - 1) as nat)
            },
            Effect::LoadMailbox(u) => {
                let (m2, e2) = after_mailbox(
                    m,
                    u,
                    match o.loaded {
                        Ok(snapshot) => Ok((u, snapshot)),
                        Err(reason) => Err(reason),
                    },
                );
                settle(m2, e2, o, (fuel - 1) as nat)
            },
            Effect::ReadMessage(id, _) => {
                let (m2, e2) = after_message(m, id, o.content);
                settle(m2, e2, o, (fuel - 1) as nat)
            },
            _ => (m, e),
        }
    }
}

/// One command, handled to its reply.
pub open spec fn handle(m: SessionModel, cmd: CommandView, o: Outcomes) -> (SessionModel, Effect) {
    settle(step(m, cmd).0, step(m, cmd).1, o, 3)
}

/// The replies to a sequence of commands, one entry per command; `os[i]`
/// is what the outside work reports while command `i` is handled.
pub open spec fn replies(m: SessionModel, cmds: Seq<CommandView>, os: Seq<Outcomes>) -> Seq<Effect>
    decreases cmds.len(),
{
    if cmds.len() == 0 || os.len() == 0 {
        seq![]
    } else {
        let (m2, e) = handle(m, cmds[0], os[0]);
        seq![e] + replies(m2, cmds.drop_first(), os.drop_first())
    }
}

pub open spec fn greeting_reply() -> Effect {
    ok_reply("POP3 server ready"@)
}

pub open spec fn initial() -> SessionModel {
    SessionModel { phase: Phase::Authorization, snapshot: seq![], marks: seq![] }
}

/// One line read from the client, handled to its reply: a command, or the
/// `-ERR` reply to a line that is none.
pub open spec fn handle_received(m: SessionModel, line: Seq<char>, o: Outcomes) -> (SessionModel, Effect) {
    match parse_command(line) {
        Ok(c) => handle(m, c, o),
        Err(t) => (m, err_reply(t)),
    }
}

/// The replies to the lines a client sends, one entry per line; `os[i]` is
/// what the outside work reports while line `i` is handled.
pub open spec fn replies_to_lines(m: SessionModel, lines: Seq<Seq<char>>, os: Seq<Outcomes>) -> Seq<Effect>
    decreases lines.len(),
{
    if lines.len() == 0 || os.len() == 0 {
        seq![]
    } else {
        let (m2, e) = handle_received(m, lines[0], os[0]);
        seq![e] + replies_to_lines(m2, lines.drop_first(), os.drop_first())
    }
}

/// Everything a session sends for the lines it reads: the greeting, then
/// the replies.
pub open spec fn transcript(lines: Seq<Seq<char>>, os: Seq<Outcomes>) -> Seq<Effect> {
    seq![greeting_reply()] + replies_to_lines(initial(), lines, os)
}

/// Whatever outside work a command leads to and whatever that work
/// reports, the command ends with exactly one reply.
pub proof fn lemma_one_reply_per_command(m: SessionModel, cmd: CommandView, o: Outcomes)
    ensures
        carries_reply(handle(m, cmd, o).1),
{
    let (m1, e1) = step(m, cmd);
    reveal_with_fuel(settle, 4);
    match e1 {
        Effect::CheckCredentials(_, _) => {
            let (m2, e2) = after_credentials(m1, o.valid);
            if let Effect::AcquireLock(u) = e2 {
                let (m3, e3) = after_lock(
                    m2,
                    if o.granted {
                        Some(u)
                    } else {
                        None
                    },
                );
                if let Effect::LoadMailbox(v) = e3 {
                    let (m4, e4) = after_mailbox(
                        m3,
                        v,
                        match o.loaded {
                            Ok(snapshot) => Ok((v, snapshot)),
                            Err(reason) => Err(reason),
                        },
                    );
                    assert(carries_reply(e4));
                }
            }
        },
        _ => {},
    }
}

/// A session sends one reply per line it reads, and one more: the
/// greeting; whatever the lines are and whatever the outside work reports
/// along the way.
pub proof fn lemma_reply_count(lines: Seq<Seq<char>>, os: Seq<Outcomes>)
    requires
        os.len() == lines.len(),
    ensures
        transcript(lines, os).len() == lines.len() + 1,
        forall|i: int| 0 <= i < transcript(lines, os).len() ==> carries_reply(#[trigger] transcript(lines, os)[i]),
{
    lemma_replies_to_lines(initial(), lines, os);
}

proof fn lemma_replies_to_lines(m: SessionModel, lines: Seq<Seq<char>>, os: Seq<Outcomes>)
    requires
        os.len() == lines.len(),
    ensures
        replies_to_lines(m, lines, os).len() == lines.len(),
        forall|i: int| 0 <= i < lines.len() ==> carries_reply(#[trigger] replies_to_lines(m, lines, os)[i]),
    decreases lines.len(),
{
    if lines.len() > 0 {
        let (m2, e) = handle_received(m, lines[0], os[0]);
        if let Ok(c) = parse_command(lines[0]) {
            lemma_one_reply_per_command(m, c, os[0]);
        }
        lemma_replies_to_lines(m2, lines.drop_first(), os.drop_first());
        let r = replies_to_lines(m, lines, os);
        assert forall|i: int| 0 <= i < lines.len() implies carries_reply(#[trigger] r[i]) by {
            if i > 0 {
                assert(r[i] == replies_to_lines(m2, lines.drop_first(), os.drop_first())[i - 1]);
            }
        }
    }
}

/// Ordinal `k` appears in the listing.
pub open spec fn listed(snapshot: Seq<MailEntry>, marks: Seq<bool>, k: int) -> bool {
    exists|j: int| 0 <= j < kept(snapshot, marks).len() && (#[trigger] kept(snapshot, marks)[j]).0 == k
}

proof fn lemma_kept_members(snapshot: Seq<MailEntry>, marks: Seq<bool>)
    requires
        marks.len() == snapshot.len(),
    ensures
        forall|j: int|
            0 <= j < kept(snapshot, marks).len() ==> 1 <= (#[trigger] kept(snapshot, marks)[j]).0
                <= snapshot.len() && !marks[kept(snapshot, marks)[j].0 - 1] && kept(
                snapshot,
                marks,
            )[j].1 == snapshot[kept(snapshot, marks)[j].0 - 1].size,
        forall|k: int| 1 <= k <= snapshot.len() && !marks[k - 1] ==> #[trigger] listed(snapshot, marks, k),
        forall|j: int, l: int|
            0 <= j < l < kept(snapshot, marks).len() ==> (#[trigger] kept(snapshot, marks)[j]).0
                < (#[trigger] kept(snapshot, marks)[l]).0,
        octets(kept(snapshot, marks)) == unmarked_octets(snapshot, marks),
    decreases snapshot.len(),
{
    if snapshot.len() > 0 {
        let s1 = snapshot.drop_last();
        let k1 = marks.drop_last();
        lemma_kept_members(s1, k1);
        lemma_kept_bound(s1, k1);
        let r = kept(snapshot, marks);
        let n = snapshot.len() as int;
        assert forall|k: int| 1 <= k <= n && !marks[k - 1] implies #[trigger] listed(snapshot, marks, k) by {
            if k < n {
                assert(!k1[k - 1]);
                assert(listed(s1, k1, k));
                let j = choose|j: int| 0 <= j < kept(s1, k1).len() && (#[trigger] kept(s1, k1)[j]).0 == k;
                assert(r[j] == kept(s1, k1)[j]);
            } else {
                assert(r[r.len() - 1].0 == k);
            }
        }
        if !marks.last() {
            assert(r.drop_last() =~= kept(s1, k1));
        }
    }
}

proof fn lemma_kept_bound(snapshot: Seq<MailEntry>, marks: Seq<bool>)
    ensures
        forall|j: int| 0 <= j < kept(snapshot, marks).len() ==> (#[trigger] kept(snapshot, marks)[j]).0 <= snapshot.len(),
    decreases snapshot.len(),
{
    if snapshot.len() > 0 && marks.len() > 0 {
        let s1 = snapshot.drop_last();
        let k1 = marks.drop_last();
        lemma_kept_bound(s1, k1);
        let r = kept(snapshot, marks);
        let rest = kept(s1, k1);
        assert forall|j: int| 0 <= j < r.len() implies (#[trigger] r[j]).0 <= snapshot.len() by {
            if j < rest.len() {
                assert(r[j] == rest[j]);
            }
        }
    }
}

/// LIST in TRANSACTION lists exactly the ordinals of the snapshot that are
/// not marked for deletion, in ascending order, each with the size of its
/// message, and the octet total is the sum of those sizes.
pub proof fn lemma_list_exact(m: SessionModel)
    requires
        m.phase is Transaction,
        m.marks.len() == m.snapshot.len(),
    ensures
        step(m, CommandView::List(None)).1 == Effect::Reply(list_reply(m.snapshot, m.marks)),
        forall|k: int| #[trigger] listed(m.snapshot, m.marks, k) <==> 1 <= k <= m.snapshot.len() && !m.marks[k - 1],
        forall|j: int, l: int|
            0 <= j < l < kept(m.snapshot, m.marks).len() ==> (#[trigger] kept(m.snapshot, m.marks)[j]).0
                < (#[trigger] kept(m.snapshot, m.marks)[l]).0,
        forall|j: int|
            0 <= j < kept(m.snapshot, m.marks).len() ==> (#[trigger] kept(m.snapshot, m.marks)[j]).1
                == m.snapshot[kept(m.snapshot, m.marks)[j].0 - 1].size,
        octets(kept(m.snapshot, m.marks)) == unmarked_octets(m.snapshot, m.marks),
{
    lemma_kept_members(m.snapshot, m.marks);
    assert forall|k: int| #[trigger] listed(m.snapshot, m.marks, k) implies 1 <= k <= m.snapshot.len() && !m.marks[k - 1] by {
        let j = choose|j: int| 0 <= j < kept(m.snapshot, m.marks).len() && (#[trigger] kept(m.snapshot, m.marks)[j]).0 == k;
    }
}

/// In TRANSACTION, no command but QUIT changes the phase or the snapshot,
/// and none leaves the marks out of step with the snapshot; the reports
/// of outside work change nothing once there.
pub proof fn lemma_snapshot_stable(m: SessionModel, cmd: CommandView, o: Outcomes)
    requires
        m.phase is Transaction,
        m.marks.len() == m.snapshot.len(),
        !(cmd is Quit),
    ensures
        handle(m, cmd, o).0.phase == m.phase,
        handle(m, cmd, o).0.snapshot == m.snapshot,
        handle(m, cmd, o).0.marks.len() == m.snapshot.len(),
{
    reveal_with_fuel(settle, 4);
}

/// The session after a sequence of commands, `os[i]` being what the
/// outside work reports while command `i` is handled.
pub open spec fn run(m: SessionModel, cmds: Seq<CommandView>, os: Seq<Outcomes>) -> SessionModel
    decreases cmds.len(),
{
    if cmds.len() == 0 || os.len() == 0 {
        m
    } else {
        run(handle(m, cmds[0], os[0]).0, cmds.drop_first(), os.drop_first())
    }
}

proof fn lemma_run_keeps_snapshot(m: SessionModel, cmds: Seq<CommandView>, os: Seq<Outcomes>)
    requires
        m.phase is Transaction,
        m.marks.len() == m.snapshot.len(),
        forall|i: int| 0 <= i < cmds.len() ==> !(#[trigger] cmds[i] is Quit),
    ensures
        run(m, cmds, os).phase == m.phase,
        run(m, cmds, os).snapshot == m.snapshot,
        run(m, cmds, os).marks.len() == m.snapshot.len(),
    decreases cmds.len(),
{
    if cmds.len() > 0 && os.len() > 0 {
        assert(!(cmds[0] is Quit));
        lemma_snapshot_stable(m, cmds[0], os[0]);
        assert forall|i: int| 0 <= i < cmds.drop_first().len() implies !(
        #[trigger] cmds.drop_first()[i] is Quit) by {
            assert(cmds.drop_first()[i] == cmds[i + 1]);
        }
        lemma_run_keeps_snapshot(handle(m, cmds[0], os[0]).0, cmds.drop_first(), os.drop_first());
    }
}

/// Whatever commands (QUIT aside) a session handles after it enters
/// TRANSACTION, RSET followed by LIST gives the listing that LIST gave right
/// after it entered.
pub proof fn lemma_rset_restores_listing(
    before: SessionModel,
    user: Seq<char>,
    snapshot: Seq<MailEntry>,
    cmds: Seq<CommandView>,
    os: Seq<Outcomes>,
)
    requires
        before.phase == Phase::AuthorizationWithUser(user),
        forall|i: int| 0 <= i < cmds.len() ==> !(#[trigger] cmds[i] is Quit),
    ensures
        ({
            let entered = after_mailbox(before, user, Ok((user, snapshot))).0;
            let m = run(entered, cmds, os);
            &&& entered.phase == Phase::Transaction(user)
            &&& step(step(m, CommandView::Rset).0, CommandView::List(None)).1 == step(
                entered,
                CommandView::List(None),
            ).1
        }),
{
    let entered = after_mailbox(before, user, Ok((user, snapshot))).0;
    lemma_run_keeps_snapshot(entered, cmds, os);
}

/// Only QUIT in TRANSACTION removes messages: no other command, and no
/// report of outside work, leads to an effect that removes any.
pub proof fn lemma_only_quit_removes(m: SessionModel, cmd: CommandView, o: Outcomes)
    ensures
        handle(m, cmd, o).1 is Update ==> m.phase is Transaction && cmd is Quit,
{
    reveal_with_fuel(settle, 4);
    lemma_one_reply_per_command(m, cmd, o);
}

/// A session that never sends QUIT (it ends with the connection closing
/// or failing) asks for no message to be removed, whatever it did before.
pub proof fn lemma_abrupt_end_removes_nothing(m: SessionModel, cmds: Seq<CommandView>, os: Seq<Outcomes>)
    requires
        forall|i: int| 0 <= i < cmds.len() ==> !(#[trigger] cmds[i] is Quit),
    ensures
        forall|i: int| 0 <= i < replies(m, cmds, os).len() ==> !(#[trigger] replies(m, cmds, os)[i] is Update),
    decreases cmds.len(),
{
    if cmds.len() > 0 && os.len() > 0 {
        let (m2, e) = handle(m, cmds[0], os[0]);
        lemma_only_quit_removes(m, cmds[0], os[0]);
        assert(!(cmds[0] is Quit));
        assert forall|i: int| 0 <= i < cmds.drop_first().len() implies !(
        #[trigger] cmds.drop_first()[i] is Quit) by {
            assert(cmds.drop_first()[i] == cmds[i + 1]);
        }
        lemma_abrupt_end_removes_nothing(m2, cmds.drop_first(), os.drop_first());
        let r = replies(m, cmds, os);
        assert forall|i: int| 0 <= i < r.len() implies !(#[trigger] r[i] is Update) by {
            if i > 0 {
                assert(r[i] == replies(m2, cmds.drop_first(), os.drop_first())[i - 1]);
            }
        }
    }
}

proof fn lemma_doomed_members(snapshot: Seq<MailEntry>, marks: Seq<bool>)
    requires
        marks.len() == snapshot.len(),
    ensures
        forall|p: Seq<char>|
            doomed(snapshot, marks).contains(p) <==> exists|i: int|
                0 <= i < snapshot.len() && marks[i] && (#[trigger] snapshot[i]).path@ == p,
    decreases snapshot.len(),
{
    if snapshot.len() > 0 {
        let s1 = snapshot.drop_last();
        let k1 = marks.drop_last();
        lemma_doomed_members(s1, k1);
        let d = doomed(snapshot, marks);
        assert forall|p: Seq<char>| d.contains(p) <==> exists|i: int|
            0 <= i < snapshot.len() && marks[i] && (#[trigger] snapshot[i]).path@ == p by {
            if d.contains(p) {
                let j0 = choose|j: int| 0 <= j < d.len() && d[j] == p;
                if marks.last() && j0 < d.len() - 1 {
                    assert(d[j0] == doomed(s1, k1)[j0]);
                }
                if !marks.last() {
                    assert(d == doomed(s1, k1));
                }
                if doomed(s1, k1).contains(p) {
                    let i = choose|i: int| 0 <= i < s1.len() && k1[i] && (#[trigger] s1[i]).path@ == p;
                    assert(snapshot[i] == s1[i]);
                } else {
                    let j = choose|j: int| 0 <= j < d.len() && d[j] == p;
                    assert(marks.last() && d.last() == p);
                    assert(snapshot[snapshot.len() - 1].path@ == p);
                }
            }
            if exists|i: int| 0 <= i < snapshot.len() && marks[i] && (#[trigger] snapshot[i]).path@ == p {
                let i = choose|i: int| 0 <= i < snapshot.len() && marks[i] && (#[trigger] snapshot[i]).path@ == p;
                if i < snapshot.len() - 1 {
                    assert(s1[i] == snapshot[i]);
                    assert(k1[i] == marks[i]);
                    assert(doomed(s1, k1).contains(p));
                    let j = choose|j: int| 0 <= j < doomed(s1, k1).len() && doomed(s1, k1)[j] == p;
                    if marks.last() {
                        assert(d[j] == doomed(s1, k1)[j]);
                    } else {
                        assert(d == doomed(s1, k1));
                    }
                    assert(d.contains(p));
                } else {
                    assert(d[d.len() - 1] == p);
                    assert(d.contains(p));
                }
            }
        }
    }
}

/// The paths of the snapshot's messages.
pub open spec fn snapshot_paths(m: SessionModel) -> Set<Seq<char>> {
    Set::new(|p: Seq<char>| exists|i: int| 0 <= i < m.snapshot.len() && (#[trigger] m.snapshot[i]).path@ == p)
}

/// The paths of the snapshot's messages marked for deletion.
pub open spec fn marked_paths(m: SessionModel) -> Set<Seq<char>> {
    Set::new(
        |p: Seq<char>|
            exists|i: int| 0 <= i < m.snapshot.len() && m.marks[i] && (#[trigger] m.snapshot[i]).path@ == p,
    )
}

/// QUIT in TRANSACTION removes exactly the marked messages: when every
/// removal succeeds, the stored files that remain are those there were
/// less the marked ones; in particular, when the stored files were the
/// snapshot's, what remains is the snapshot's files less the marked ones.
pub proof fn lemma_commit_leaves_unmarked(m: SessionModel, files: Set<Seq<char>>)
    requires
        m.phase is Transaction,
        m.marks.len() == m.snapshot.len(),
    ensures
        step(m, CommandView::Quit).1 matches Effect::Update(_, removed) && ({
            let remaining = files.difference(removed.to_set());
            &&& removed.to_set() == marked_paths(m)
            &&& remaining == files.difference(marked_paths(m))
            &&& files == snapshot_paths(m) ==> remaining == snapshot_paths(m).difference(marked_paths(m))
        }),
{
    lemma_doomed_members(m.snapshot, m.marks);
    let removed = doomed(m.snapshot, m.marks);
    assert forall|p: Seq<char>| removed.to_set().contains(p) == marked_paths(m).contains(p) by {
        if removed.to_set().contains(p) {
            assert(removed.contains(p));
        }
        if marked_paths(m).contains(p) {
            assert(removed.contains(p));
        }
    }
    assert(removed.to_set() =~= marked_paths(m));
    assert(files.difference(removed.to_set()) =~= files.difference(marked_paths(m)));
}

/// A request to the lock table.
pub enum LockRequest {
    Acquire(Seq<char>),
    Release(Seq<char>),
}

/// The held mailboxes after a run of requests, as `try_lock_mailbox` and
/// `unlock_mailbox` change them.
pub open spec fn after_requests(held: Set<Seq<char>>, reqs: Seq<LockRequest>) -> Set<Seq<char>>
    decreases reqs.len(),
{
    if reqs.len() == 0 {
        held
    } else {
        let h = after_requests(held, reqs.drop_last());
        match reqs.last() {
            LockRequest::Acquire(u) => h.insert(u),
            LockRequest::Release(u) => h.remove(u),
        }
    }
}

/// Once a mailbox is held, it stays held until it is released, and every
/// request for it meanwhile is refused: no two sessions hold it at once.
pub proof fn lemma_lock_exclusive(held: Set<Seq<char>>, reqs: Seq<LockRequest>, u: Seq<char>)
    requires
        held.contains(u),
        forall|i: int| 0 <= i < reqs.len() ==> reqs[i] != LockRequest::Release(u),
    ensures
        after_requests(held, reqs).contains(u),
        forall|i: int|
            0 <= i < reqs.len() && reqs[i] == LockRequest::Acquire(u) ==> after_requests(
                held,
                #[trigger] reqs.take(i),
            ).contains(u),
    decreases reqs.len(),
{
    if reqs.len() > 0 {
        let r1 = reqs.drop_last();
        lemma_lock_exclusive(held, r1, u);
        assert forall|i: int|
            0 <= i < reqs.len() && reqs[i] == LockRequest::Acquire(u) implies after_requests(
                held,
                #[trigger] reqs.take(i),
            ).contains(u) by {
            if i < reqs.len() - 1 {
                assert(r1.take(i) =~= reqs.take(i));
                assert(r1[i] == reqs[i]);
            } else {
                assert(reqs.take(i) =~= r1);
            }
        }
    }
}

} // verus!
