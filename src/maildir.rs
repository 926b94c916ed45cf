//! A user's Maildir mailbox as one session sees it: a snapshot of its
//! messages, numbered from 1.
use vstd::prelude::*;

verus! {

/// Why a message could not be had from the mailbox.
#[derive(Debug)]
pub enum MailDirError {
    IoError(String),
    MailEntryNotFound(String),
}

impl MailDirError {
    pub open spec fn message_text(&self) -> Seq<char> {
        match self {
            MailDirError::IoError(reason) => "I/O error: "@ + reason@,
            MailDirError::MailEntryNotFound(_) => "mail entry not found"@,
        }
    }

    /// The text that a client is told.
    pub fn message(&self) -> (r: String)
        ensures
            r@ == self.message_text(),
    {
        match self {
            MailDirError::IoError(reason) => {
                let mut m = "I/O error: ".to_owned();
                m.append(reason.as_str());
                m
            },
            MailDirError::MailEntryNotFound(_) => "mail entry not found".to_owned(),
        }
    }
}

/// One stored message: its ordinal in the snapshot, where it is stored, its
/// size in octets and its file name.
#[derive(Clone, Debug)]
pub struct MailEntry {
    pub id: u64,
    pub path: String,
    pub size: u64,
    pub filename: String,
}

/// `e` describes the same stored message as `f`, whatever ordinal each has.
pub open spec fn same_message(e: MailEntry, f: MailEntry) -> bool {
    e.path@ == f.path@ && e.size == f.size && e.filename@ == f.filename@
}

fn entry_copy(e: &MailEntry, id: u64) -> (r: MailEntry)
    ensures
        same_message(r, *e),
        r.id == id,
{
    MailEntry { id, path: e.path.clone(), size: e.size, filename: e.filename.clone() }
}

/// The directory that holds one partition of a user's mailbox.
pub open spec fn partition_dir(username: Seq<char>, part: Seq<char>) -> Seq<char> {
    "Maildir/"@ + username + seq!['/'] + part
}

fn partition_path(username: &str, part: &str) -> (r: String)
    ensures
        r@ == partition_dir(username@, part@),
{
    let mut p = "Maildir/".to_owned();
    p.append(username);
    p.append("/");
    p.append(part);
    proof {
        reveal_strlit("/");
    }
    p
}

/// The three directories of a user's mailbox: `cur`, `new` and `tmp`.
pub fn mailbox_dirs(username: &str) -> (r: Vec<String>)
    ensures
        r@.len() == 3,
        r@[0]@ == partition_dir(username@, "cur"@),
        r@[1]@ == partition_dir(username@, "new"@),
        r@[2]@ == partition_dir(username@, "tmp"@),
{
    let mut dirs: Vec<String> = Vec::new();
    dirs.push(partition_path(username, "cur"));
    dirs.push(partition_path(username, "new"));
    dirs.push(partition_path(username, "tmp"));
    dirs
}

/// A user's mailbox as one session sees it: the snapshot of its messages,
/// numbered from 1 in the order `new` then `cur`.
pub struct MailDir {
    username: String,
    mailbox_new: String,
    mailbox_cur: String,
    cache: Vec<MailEntry>,
}

impl MailDir {
    #[verifier::type_invariant]
    spec fn numbered(self) -> bool {
        forall|i: int| 0 <= i < self.cache@.len() ==> (#[trigger] self.cache@[i]).id == i + 1
    }

    pub closed spec fn user(&self) -> Seq<char> {
        self.username@
    }

    pub closed spec fn new_dir(&self) -> Seq<char> {
        self.mailbox_new@
    }

    pub closed spec fn cur_dir(&self) -> Seq<char> {
        self.mailbox_cur@
    }

    /// The messages, the one with ordinal `k` at index `k - 1`.
    pub closed spec fn snapshot(&self) -> Seq<MailEntry> {
        self.cache@
    }

    /// An empty snapshot of the mailbox of `username`.
    pub fn new(username: &str) -> (r: MailDir)
        ensures
            r.user() == username@,
            r.new_dir() == partition_dir(username@, "new"@),
            r.cur_dir() == partition_dir(username@, "cur"@),
            r.snapshot().len() == 0,
    {
        MailDir {
            username: username.to_owned(),
            mailbox_new: partition_path(username, "new"),
            mailbox_cur: partition_path(username, "cur"),
            cache: Vec::new(),
        }
    }

    /// Takes a new snapshot from the listings of the `new` and the `cur`
    /// partition: the messages of `new` first, then those of `cur`, each in
    /// the order listed, numbered from 1.
    pub fn refresh_cache(&mut self, new_listing: Vec<MailEntry>, cur_listing: Vec<MailEntry>)
        requires
            new_listing@.len() + cur_listing@.len() <= usize::MAX,
        ensures
            final(self).user() == old(self).user(),
            final(self).new_dir() == old(self).new_dir(),
            final(self).cur_dir() == old(self).cur_dir(),
            final(self).snapshot().len() == new_listing@.len() + cur_listing@.len(),
            forall|i: int|
                0 <= i < new_listing@.len() ==> same_message(
                    #[trigger] final(self).snapshot()[i],
                    new_listing@[i],
                ),
            forall|i: int|
                0 <= i < cur_listing@.len() ==> same_message(
                    #[trigger] final(self).snapshot()[new_listing@.len() + i],
                    cur_listing@[i],
                ),
    {
        let mut cache: Vec<MailEntry> = Vec::new();
        let mut i: usize = 0;
        while i < new_listing.len()
            invariant
                i <= new_listing@.len(),
                cache@.len() == i,
                forall|k: int| 0 <= k < i ==> (#[trigger] cache@[k]).id == k + 1,
                forall|k: int| 0 <= k < i ==> same_message(#[trigger] cache@[k], new_listing@[k]),
            decreases new_listing.len() - i,
        {
            cache.push(entry_copy(&new_listing[i], (i + 1) as u64));
            i = i + 1;
        }
        let mut j: usize = 0;
        while j < cur_listing.len()
            invariant
                j <= cur_listing@.len(),
                i == new_listing@.len(),
                new_listing@.len() + cur_listing@.len() <= usize::MAX,
                cache@.len() == i + j,
                forall|k: int| 0 <= k < i + j ==> (#[trigger] cache@[k]).id == k + 1,
                forall|k: int| 0 <= k < i ==> same_message(#[trigger] cache@[k], new_listing@[k]),
                forall|k: int| 0 <= k < j ==> same_message(#[trigger] cache@[i + k], cur_listing@[k]),
            decreases cur_listing.len() - j,
        {
            cache.push(entry_copy(&cur_listing[j], (i + j + 1) as u64));
            j = j + 1;
        }
        self.cache = cache;
    }

    /// The messages of the snapshot, in order.
    pub fn list_messages(&self) -> (r: Vec<MailEntry>)
        ensures
            r@.len() == self.snapshot().len(),
            forall|i: int|
                0 <= i < r@.len() ==> same_message(#[trigger] r@[i], self.snapshot()[i]) && r@[i].id
                    == i + 1,
    {
        proof {
            use_type_invariant(self);
        }
        let mut out: Vec<MailEntry> = Vec::new();
        let mut i: usize = 0;
        while i < self.cache.len()
            invariant
                i <= self.cache@.len(),
                out@.len() == i,
                forall|k: int|
                    0 <= k < i ==> same_message(#[trigger] out@[k], self.cache@[k]) && out@[k].id
                        == k + 1,
                forall|k: int| 0 <= k < self.cache@.len() ==> (#[trigger] self.cache@[k]).id == k + 1,
            decreases self.cache.len() - i,
        {
            out.push(entry_copy(&self.cache[i], self.cache[i].id));
            i = i + 1;
        }
        out
    }

    pub fn username(&self) -> (r: &str)
        ensures
            r@ == self.user(),
    {
        self.username.as_str()
    }

    /// Where the `new` partition is stored.
    pub fn new_path(&self) -> (r: &str)
        ensures
            r@ == self.new_dir(),
    {
        self.mailbox_new.as_str()
    }

    /// Where the `cur` partition is stored.
    pub fn cur_path(&self) -> (r: &str)
        ensures
            r@ == self.cur_dir(),
    {
        self.mailbox_cur.as_str()
    }

    pub fn len(&self) -> (r: usize)
        ensures
            r == self.snapshot().len(),
    {
        self.cache.len()
    }

    /// The message at index `i` (ordinal `i + 1`).
    pub fn at(&self, i: usize) -> (r: &MailEntry)
        requires
            i < self.snapshot().len(),
        ensures
            *r == self.snapshot()[i as int],
    {
        &self.cache[i]
    }

    /// The message with ordinal `id`.
    pub fn entry(&self, id: u64) -> (r: Result<&MailEntry, MailDirError>)
        ensures
            1 <= id <= self.snapshot().len() ==> r is Ok && *r->Ok_0 == self.snapshot()[id - 1],
            !(1 <= id <= self.snapshot().len()) ==> r is Err && r->Err_0 is MailEntryNotFound,
    {
        if id >= 1 && id <= self.cache.len() as u64 {
            Ok(&self.cache[(id - 1) as usize])
        } else {
            Err(MailDirError::MailEntryNotFound("mail entry not in cache".to_owned()))
        }
    }
}

} // verus!
