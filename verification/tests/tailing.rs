//! Tests for the tail-cursor state machine.

use mailfind::tail::{classify_event, FileEventClass, ParseEventError, TailAction, TailCursor};

#[test]
fn create_and_remove_reset_then_reread() {
    let mut cursor = TailCursor::new(40);
    assert_eq!(classify_event(FileEventClass::Create), TailAction::ResetAndRead);
    assert_eq!(classify_event(FileEventClass::Remove), TailAction::ResetAndRead);
    cursor.reset();
    assert_eq!(cursor.pos, 0);
    // The whole current content is re-read: the read starts at zero.
    let start = cursor.advance(25);
    assert_eq!(start, 0);
    assert_eq!(cursor.pos, 25);
}

#[test]
fn modify_reads_from_current_offset() {
    let mut cursor = TailCursor::new(10);
    assert_eq!(classify_event(FileEventClass::Modify), TailAction::Read);
    let start = cursor.advance(18);
    assert_eq!(start, 10);
    assert_eq!(cursor.pos, 18);
}

#[test]
fn access_is_ignored_and_moves_nothing() {
    let cursor = TailCursor::new(10);
    assert_eq!(classify_event(FileEventClass::Access), TailAction::Ignore);
    // No read is decided on, so the cursor is untouched.
    assert_eq!(cursor.pos, 10);
}

#[test]
fn unknown_events_are_unhandled() {
    assert_eq!(classify_event(FileEventClass::Other), TailAction::Unhandled);
}

#[test]
fn only_read_failures_are_retried() {
    assert!(ParseEventError::FileReading.is_retryable());
    assert!(!ParseEventError::UnhandledEvent(FileEventClass::Other).is_retryable());
    assert!(!ParseEventError::Other.is_retryable());
}
