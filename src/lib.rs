//! Core of a POP3 mail-retrieval server: the wire codec, the per-connection
//! session state machine, the mailbox lock table, per-session mailbox
//! snapshots and the credential store.
pub mod auth;
pub mod lock_table;
pub mod maildir;
pub mod model;
pub mod protocol;
pub mod session;
pub mod text;
