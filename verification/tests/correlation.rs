//! Tests for the correlation table and the mail-lookup filter.

use mailfind::mail::{Mail, MailDB};
use mailfind::parse::{parse_mail_subjects, parse_mails};
use mailfind::query::{find_mail, FindMailQuery};

fn record(to: &str, id: &str, line: Option<&str>, subject: Option<&str>) -> Mail {
    Mail {
        id: id.to_string(),
        line: line.map(|s| s.to_string()),
        subject: subject.map(|s| s.to_string()),
        to: to.to_string(),
    }
}

fn query(addr: &str, subject: Option<&str>) -> FindMailQuery {
    FindMailQuery {
        email_address_filter: addr.to_string(),
        subject_filter: subject.map(|s| s.to_string()),
    }
}

#[test]
fn duplicate_pair_is_stored_once() {
    let mut db = MailDB::new();
    let first = db.insert_mails(vec![
        record("u@d.com", "ABCDEFGHIJ", Some("line one"), None),
        record("u@d.com", "ABCDEFGHIJ", Some("line two"), None),
    ]);
    assert_eq!(first, 1);
    let second = db.insert_mails(vec![record("u@d.com", "ABCDEFGHIJ", Some("line three"), None)]);
    assert_eq!(second, 0);
    assert_eq!(db.bucket_count(), 1);
    let bucket = db.bucket_at(0);
    assert_eq!(bucket.to, "u@d.com");
    assert_eq!(bucket.mails.len(), 1);
    assert_eq!(bucket.mails[0].line.as_deref(), Some("line one"));
}

#[test]
fn same_id_under_other_recipient_is_kept() {
    let mut db = MailDB::new();
    let n = db.insert_mails(vec![
        record("u@d.com", "ABCDEFGHIJ", None, None),
        record("v@d.com", "ABCDEFGHIJ", None, None),
    ]);
    assert_eq!(n, 2);
    assert_eq!(db.bucket_count(), 2);
}

#[test]
fn update_fills_subject_once() {
    let mut db = MailDB::new();
    db.insert_mails(vec![record("u@d.com", "ABCDEFGHIJ", Some("raw"), None)]);
    let upd = record("u@d.com", "ABCDEFGHIJ", None, Some("Hello"));
    let first = db.update_mail_subjects(vec![upd.clone()]);
    assert_eq!(first, 1);
    assert_eq!(db.bucket_at(0).mails[0].subject.as_deref(), Some("Hello"));
    // The record's subject is now set: the same update touches nothing.
    let second = db.update_mail_subjects(vec![upd]);
    assert_eq!(second, 0);
    assert_eq!(db.bucket_at(0).mails[0].subject.as_deref(), Some("Hello"));
}

#[test]
fn update_without_bucket_is_dropped() {
    let mut db = MailDB::new();
    db.insert_mails(vec![record("u@d.com", "ABCDEFGHIJ", None, None)]);
    let n = db.update_mail_subjects(vec![record("w@d.com", "ABCDEFGHIJ", None, Some("Hello"))]);
    assert_eq!(n, 0);
    assert_eq!(db.bucket_count(), 1);
    assert_eq!(db.bucket_at(0).to, "u@d.com");
    assert!(db.bucket_at(0).mails[0].subject.is_none());
}

#[test]
fn update_with_wrong_id_is_dropped() {
    let mut db = MailDB::new();
    db.insert_mails(vec![record("u@d.com", "ABCDEFGHIJ", None, None)]);
    let n = db.update_mail_subjects(vec![record("u@d.com", "JIHGFEDCBA", None, Some("Hello"))]);
    assert_eq!(n, 0);
    assert!(db.bucket_at(0).mails[0].subject.is_none());
}

#[test]
fn address_filter_is_exact_substring() {
    let mut db = MailDB::new();
    db.insert_mails(vec![
        record("user@domain.com", "AAAAAAAAAA", None, None),
        record("other@example.org", "BBBBBBBBBB", None, None),
    ]);
    let found = find_mail(&db, &query("domain", None)).expect("should match one recipient");
    assert_eq!(found.len(), 1);
    assert_eq!(found[0].to, "user@domain.com");
    // Substring matching is case-sensitive on the address.
    assert!(find_mail(&db, &query("DOMAIN", None)).is_none());
}

#[test]
fn subject_filter_is_case_insensitive() {
    let mut db = MailDB::new();
    db.insert_mails(vec![record("u@d.com", "AAAAAAAAAA", None, None)]);
    db.update_mail_subjects(vec![record("u@d.com", "AAAAAAAAAA", None, Some("HeLLo World"))]);
    let found = find_mail(&db, &query("u@d.com", Some("hello"))).expect("folded match");
    assert_eq!(found[0].mails.len(), 1);
    let found = find_mail(&db, &query("u@d.com", Some("WORLD"))).expect("folded match");
    assert_eq!(found[0].mails.len(), 1);
    assert!(find_mail(&db, &query("u@d.com", Some("absent"))).is_none());
}

#[test]
fn subject_filter_drops_records_without_subject() {
    let mut db = MailDB::new();
    db.insert_mails(vec![
        record("u@d.com", "AAAAAAAAAA", None, None),
        record("u@d.com", "BBBBBBBBBB", None, Some("kept")),
    ]);
    let found = find_mail(&db, &query("u@d.com", Some("kept"))).expect("one survivor");
    assert_eq!(found[0].mails.len(), 1);
    assert_eq!(found[0].mails[0].id, "BBBBBBBBBB");
}

#[test]
fn empty_selection_is_not_found() {
    let mut db = MailDB::new();
    db.insert_mails(vec![record("u@d.com", "AAAAAAAAAA", None, Some("hi"))]);
    assert!(find_mail(&db, &query("nobody", None)).is_none());
    assert!(find_mail(&db, &query("u@d.com", Some("nothing like it"))).is_none());
}

#[test]
fn results_sort_by_raw_line_absent_first() {
    let mut db = MailDB::new();
    db.insert_mails(vec![
        record("u@d.com", "AAAAAAAAAA", Some("zzz line"), None),
        record("u@d.com", "BBBBBBBBBB", Some("aaa line"), None),
        record("u@d.com", "CCCCCCCCCC", None, None),
    ]);
    let found = find_mail(&db, &query("u@d.com", None)).expect("one bucket");
    let mails = &found[0].mails;
    assert_eq!(mails.len(), 3);
    assert!(mails[0].line.is_none());
    assert_eq!(mails[1].line.as_deref(), Some("aaa line"));
    assert_eq!(mails[2].line.as_deref(), Some("zzz line"));
}

#[test]
fn end_to_end_delivery_then_content() {
    let mut db = MailDB::new();
    let log_line =
        "Oct  1 12:00:00 host postfix/smtp[123]: ABCDEFGHIJ: to=<u@d.com>, status=sent (250 ok)";
    let inserted = db.insert_mails(parse_mails(&vec![log_line.to_string()]));
    assert_eq!(inserted, 1);
    let content: Vec<String> = vec![
        "from relay by host with ESMTPS id ABCDEFGHIJ".to_string(),
        "To: <u@d.com>".to_string(),
        "Subject: Hello".to_string(),
    ];
    let updated = db.update_mail_subjects(parse_mail_subjects(&content));
    assert_eq!(updated, 1);
    let found = find_mail(&db, &query("u@d.com", None)).expect("correlated record");
    assert_eq!(found.len(), 1);
    assert_eq!(found[0].to, "u@d.com");
    assert_eq!(found[0].mails.len(), 1);
    assert_eq!(found[0].mails[0].id, "ABCDEFGHIJ");
    assert_eq!(found[0].mails[0].subject.as_deref(), Some("Hello"));
    assert_eq!(found[0].mails[0].line.as_deref(), Some(log_line));
}

#[test]
fn subject_filter_folds_non_ascii_case() {
    let mut db = MailDB::new();
    db.insert_mails(vec![record("u@d.com", "AAAAAAAAAA", None, Some("Café Münchën"))]);
    let found = find_mail(&db, &query("u@d.com", Some("CAFÉ"))).expect("folded match");
    assert_eq!(found[0].mails.len(), 1);
    assert!(find_mail(&db, &query("u@d.com", Some("CAFÉS"))).is_none());
}
