//! Tail-cursor state machine for following a growing log file.
//!
//! The surrounding process owns the filesystem watcher and the file handles;
//! it reports each filesystem notification here as a plain [`FileEventClass`]
//! value and performs the reads this module decides on.  The cursor keeps the
//! byte offset already delivered downstream for the current incarnation of
//! the file: a create or remove notification (the rotate-and-recreate
//! pattern) resets it to zero, a data change advances it to the new file
//! length, and a pure metadata touch leaves it alone.

use vstd::prelude::*;

verus! {

/// A filesystem notification, reduced to the classes the tailer reacts to.
#[derive(Debug, Clone, Copy, PartialEq, Eq, Structural)]
pub enum FileEventClass {
    /// The watched path was created (a rotated file reappeared).
    Create,
    /// The watched path was removed (rotated away).
    Remove,
    /// The file's contents changed (an append).
    Modify,
    /// The file was only accessed; no content change.
    Access,
    /// Any other notification kind.
    Other,
}

/// What the tailer must do in reaction to one notification.
#[derive(Debug, Clone, Copy, PartialEq, Eq, Structural)]
pub enum TailAction {
    /// Reset the offset to zero, re-subscribe the watch, then read.
    ResetAndRead,
    /// Read from the current offset onward.
    Read,
    /// Do nothing.
    Ignore,
    /// Unrecognized notification: log it and do nothing.
    Unhandled,
}

/// Error raised while reacting to one filesystem notification.
///
/// Only [`ParseEventError::FileReading`] is worth a retry; the other
/// variants are absorbed locally by the tail loop.
#[derive(Debug, Clone, Copy, PartialEq, Eq, Structural)]
pub enum ParseEventError {
    /// The notification kind is not one the tailer reacts to.
    UnhandledEvent(FileEventClass),
    /// A read or re-watch of the file failed.
    FileReading,
    /// The watcher itself reported an error.
    Other,
}

impl ParseEventError {
    /// Whether the tail loop should enter its retry loop for this error.
    pub fn is_retryable(&self) -> (r: bool)
        ensures
            r == (*self is FileReading),
    {
        match self {
            ParseEventError::FileReading => true,
            _ => false,
        }
    }
}

/// How one notification class is acted on.
pub open spec fn classify_spec(ev: FileEventClass) -> TailAction {
    match ev {
        FileEventClass::Create => TailAction::ResetAndRead,
        FileEventClass::Remove => TailAction::ResetAndRead,
        FileEventClass::Modify => TailAction::Read,
        FileEventClass::Access => TailAction::Ignore,
        FileEventClass::Other => TailAction::Unhandled,
    }
}

/// Classify one filesystem notification.
pub fn classify_event(ev: FileEventClass) -> (a: TailAction)
    ensures
        a == classify_spec(ev),
{
    match ev {
        FileEventClass::Create | FileEventClass::Remove => TailAction::ResetAndRead,
        FileEventClass::Modify => TailAction::Read,
        FileEventClass::Access => TailAction::Ignore,
        FileEventClass::Other => TailAction::Unhandled,
    }
}

/// The read offset into the current incarnation of a tailed file.
///
/// `pos` is the number of bytes already delivered downstream; every byte
/// from `pos` to the file's current length is new.
#[derive(Debug, Clone, Copy, PartialEq, Eq, Structural)]
pub struct TailCursor {
    pub pos: u64,
}

impl TailCursor {
    /// Start tailing a file whose current length is `file_len`: everything
    /// up to that point has already been consumed by the bootstrap pass.
    pub fn new(file_len: u64) -> (c: TailCursor)
        ensures
            c.pos == file_len,
    {
        TailCursor { pos: file_len }
    }

    /// React to a rotation: the next read starts at the top of the new file.
    pub fn reset(&mut self)
        ensures
            final(self).pos == 0,
    {
        self.pos = 0;
    }

    /// Record a read of the file whose length is now `file_len`.  Returns
    /// the offset the read started from; the bytes handed downstream are
    /// exactly those from the returned offset up to `file_len` (none when
    /// the file shrank below the cursor without a rotation notice).
    pub fn advance(&mut self, file_len: u64) -> (start: u64)
        ensures
            start == old(self).pos,
            final(self).pos == file_len,
    {
        let start = self.pos;
        self.pos = file_len;
        start
    }
}

} // verus!
