//! The table of held mailboxes: at most one session holds a user's mailbox
//! at a time.
use vstd::prelude::*;

verus! {

/// `v` with `name` added at the end.
fn pushed(v: &Vec<String>, name: String) -> (r: Vec<String>)
    ensures
        r@ == v@.push(name),
{
    let mut out: Vec<String> = Vec::new();
    let mut i: usize = 0;
    while i < v.len()
        invariant
            i <= v@.len(),
            out@ == v@.subrange(0, i as int),
        decreases v.len() - i,
    {
        out.push(v[i].clone());
        i = i + 1;
        assert(out@ =~= v@.subrange(0, i as int));
    }
    assert(v@.subrange(0, v@.len() as int) =~= v@);
    out.push(name);
    out
}

/// `v` without its element at `at`.
fn removed(v: &Vec<String>, at: usize) -> (r: Vec<String>)
    requires
        at < v@.len(),
    ensures
        r@ == v@.remove(at as int),
{
    let mut out: Vec<String> = Vec::new();
    let mut i: usize = 0;
    while i < v.len()
        invariant
            at < v@.len(),
            i <= v@.len(),
            i <= at ==> out@ == v@.subrange(0, i as int),
            i > at ==> out@ == v@.subrange(0, at as int) + v@.subrange(at + 1, i as int),
        decreases v.len() - i,
    {
        if i != at {
            out.push(v[i].clone());
        }
        i = i + 1;
        if i <= at {
            assert(out@ =~= v@.subrange(0, i as int));
        } else {
            assert(out@ =~= v@.subrange(0, at as int) + v@.subrange(at + 1, i as int));
        }
    }
    assert(out@ =~= v@.remove(at as int));
    out
}

/// Exclusive possession of one user's mailbox, granted by the
/// `SessionManager`; handed back to it with `unlock_mailbox`.
#[derive(Debug)]
pub struct MailboxLock {
    username: String,
}

impl MailboxLock {
    pub closed spec fn user(&self) -> Seq<char> {
        self.username@
    }

    pub fn username(&self) -> (r: &str)
        ensures
            r@ == self.user(),
    {
        self.username.as_str()
    }
}

/// The table of mailboxes that sessions hold, shared by all sessions.
pub struct SessionManager {
    locked_mailboxes: Vec<String>,
}

impl SessionManager {
    #[verifier::type_invariant]
    spec fn distinct(self) -> bool {
        forall|i: int, j: int|
            0 <= i < j < self.locked_mailboxes@.len() ==> (#[trigger] self.locked_mailboxes@[i])@
                != (#[trigger] self.locked_mailboxes@[j])@
    }

    /// The users whose mailboxes are held.
    pub closed spec fn locked(&self) -> Set<Seq<char>> {
        Set::new(
            |u: Seq<char>|
                exists|i: int|
                    0 <= i < self.locked_mailboxes@.len() && (#[trigger] self.locked_mailboxes@[i])@
                        == u,
        )
    }

    /// A table in which no mailbox is held.
    pub fn new() -> (r: SessionManager)
        ensures
            r.locked() == Set::<Seq<char>>::empty(),
    {
        let r = SessionManager { locked_mailboxes: Vec::new() };
        assert(r.locked() =~= Set::<Seq<char>>::empty());
        r
    }

    fn position(&self, username: &String) -> (r: Option<usize>)
        ensures
            match r {
                Some(i) => i < self.locked_mailboxes@.len() && self.locked_mailboxes@[i as int]@
                    == username@,
                None => !self.locked().contains(username@),
            },
    {
        let mut i: usize = 0;
        while i < self.locked_mailboxes.len()
            invariant
                i <= self.locked_mailboxes@.len(),
                forall|k: int| 0 <= k < i ==> (#[trigger] self.locked_mailboxes@[k])@ != username@,
            decreases self.locked_mailboxes.len() - i,
        {
            if self.locked_mailboxes[i] == *username {
                return Some(i);
            }
            i = i + 1;
        }
        None
    }

    /// Grants the mailbox of `username` if no session holds it; refuses at
    /// once otherwise.
    pub fn try_lock_mailbox(&mut self, username: &str) -> (r: Result<MailboxLock, &'static str>)
        ensures
            old(self).locked().contains(username@) ==> r is Err && r->Err_0@
                == "Mailbox already locked"@ && final(self).locked() == old(self).locked(),
            !old(self).locked().contains(username@) ==> r is Ok && r->Ok_0.user() == username@
                && final(self).locked() == old(self).locked().insert(username@),
    {
        proof {
            use_type_invariant(&*self);
        }
        let name = username.to_owned();
        match self.position(&name) {
            Some(_) => Err("Mailbox already locked"),
            None => {
                let ghost before = self.locked_mailboxes@;
                self.locked_mailboxes = pushed(&self.locked_mailboxes, name.clone());
                proof {
                    assert(self.locked_mailboxes@[before.len() as int]@ == username@);
                    assert forall|u: Seq<char>| #[trigger]
                        self.locked().contains(u) == old(self).locked().insert(username@).contains(
                            u,
                        ) by {
                        if old(self).locked().contains(u) {
                            let k = choose|k: int|
                                0 <= k < before.len() && (#[trigger] before[k])@ == u;
                            assert(self.locked_mailboxes@[k] == before[k]);
                        }
                        if self.locked().contains(u) && u != username@ {
                            let k = choose|k: int|
                                0 <= k < self.locked_mailboxes@.len() && (
                                #[trigger] self.locked_mailboxes@[k])@ == u;
                            assert(k < before.len());
                            assert(before[k] == self.locked_mailboxes@[k]);
                        }
                    }
                    assert(self.locked() =~= old(self).locked().insert(username@));
                }
                Ok(MailboxLock { username: name })
            },
        }
    }

    /// Hands back the mailbox of `username`; does nothing if it is not held.
    pub fn unlock_mailbox(&mut self, username: &str)
        ensures
            final(self).locked() == old(self).locked().remove(username@),
    {
        proof {
            use_type_invariant(&*self);
        }
        let name = username.to_owned();
        match self.position(&name) {
            None => {
                assert(self.locked() =~= old(self).locked().remove(username@));
            },
            Some(i) => {
                let ghost before = self.locked_mailboxes@;
                self.locked_mailboxes = removed(&self.locked_mailboxes, i);
                proof {
                    assert forall|u: Seq<char>| #[trigger]
                        self.locked().contains(u) == old(self).locked().remove(username@).contains(
                            u,
                        ) by {
                        if old(self).locked().contains(u) && u != username@ {
                            let k = choose|k: int|
                                0 <= k < before.len() && (#[trigger] before[k])@ == u;
                            assert(k != i);
                            if k < i {
                                assert(self.locked_mailboxes@[k] == before[k]);
                            } else {
                                assert(self.locked_mailboxes@[k - 1] == before[k]);
                            }
                        }
                        if self.locked().contains(u) {
                            let k = choose|k: int|
                                0 <= k < self.locked_mailboxes@.len() && (
                                #[trigger] self.locked_mailboxes@[k])@ == u;
                            if k < i {
                                assert(self.locked_mailboxes@[k] == before[k]);
                                assert(before[k]@ != before[i as int]@);
                            } else {
                                assert(self.locked_mailboxes@[k] == before[k + 1]);
                                assert(before[k + 1]@ != before[i as int]@);
                            }
                        }
                    }
                    assert(self.locked() =~= old(self).locked().remove(username@));
                }
            },
        }
    }
}

} // verus!
