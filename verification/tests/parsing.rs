//! Tests for the two log-format parsers.

use mailfind::parse::{email_from_log_line, id_from_log_line, parse_mail_subjects, parse_mails};

fn lines(v: &[&str]) -> Vec<String> {
    v.iter().map(|s| s.to_string()).collect()
}

#[test]
fn no_marker_emits_nothing() {
    let input = lines(&[
        "Oct  1 12:00:00 host dovecot: imap-login: user=<u@d.com>",
        "plain chatter with a colon: and <brackets@x> everywhere",
        "",
    ]);
    let mails = parse_mails(&input);
    assert!(mails.is_empty());
}

#[test]
fn valid_delivery_line_emits_one_record() {
    let line =
        "Oct  1 12:00:00 host postfix/smtp[123]: ABCDEFGHIJ: to=<u@d.com>, status=sent (250 ok)";
    let mails = parse_mails(&lines(&[line]));
    assert_eq!(mails.len(), 1);
    assert_eq!(mails[0].id, "ABCDEFGHIJ");
    assert_eq!(mails[0].to, "u@d.com");
    assert!(mails[0].subject.is_none());
    assert_eq!(mails[0].line.as_deref(), Some(line));
}

#[test]
fn short_id_is_skipped() {
    let line = "Oct  1 12:00:00 host postfix/smtp[123]: SHORT: to=<u@d.com>, status=sent";
    assert!(parse_mails(&lines(&[line])).is_empty());
}

#[test]
fn address_without_at_is_skipped() {
    let line = "Oct  1 12:00:00 host postfix/smtp[123]: ABCDEFGHIJ: to=<postmaster>, status=sent";
    assert!(parse_mails(&lines(&[line])).is_empty());
}

#[test]
fn line_without_enough_fields_is_skipped() {
    let line = "postfix/smtp[123] ABCDEFGHIJ <u@d.com>";
    assert!(parse_mails(&lines(&[line])).is_empty());
}

#[test]
fn id_field_is_trimmed() {
    let r = id_from_log_line("a:b:c:   ABCDEFGHIJ  : rest");
    assert_eq!(r, Some("ABCDEFGHIJ"));
}

#[test]
fn id_missing_when_under_four_fields() {
    assert_eq!(id_from_log_line("a:b: no fourth field"), None);
}

#[test]
fn email_runs_to_line_end_without_closing_bracket() {
    assert_eq!(email_from_log_line("x <u@d.com"), Some("u@d.com"));
    assert_eq!(email_from_log_line("no brackets at all"), None);
}

#[test]
fn capture_emits_one_full_record() {
    let input = lines(&[
        "from relay (x) by host with ESMTPS id X",
        "To: <a@b.com>",
        "Subject: hi",
        "body text",
    ]);
    let mails = parse_mail_subjects(&input);
    assert_eq!(mails.len(), 1);
    assert_eq!(mails[0].id, "X");
    assert_eq!(mails[0].to, "a@b.com");
    assert_eq!(mails[0].subject.as_deref(), Some("hi"));
    assert!(mails[0].line.is_none());
}

#[test]
fn second_marker_discards_unfinished_capture() {
    let input = lines(&[
        "by host with ESMTPS id X",
        "by host with ESMTPS id Y",
        "To: <a@b.com>",
        "Subject: s",
    ]);
    let mails = parse_mail_subjects(&input);
    assert_eq!(mails.len(), 1);
    assert_eq!(mails[0].id, "Y");
    assert_eq!(mails[0].to, "a@b.com");
    assert_eq!(mails[0].subject.as_deref(), Some("s"));
}

#[test]
fn headers_outside_capture_are_ignored() {
    let input = lines(&["To: <a@b.com>", "Subject: hi"]);
    assert!(parse_mail_subjects(&input).is_empty());
}

#[test]
fn first_to_and_subject_win() {
    let input = lines(&[
        "by host with ESMTPS id Z",
        "To: <first@b.com>",
        "To: <second@b.com>",
        "Subject: one",
    ]);
    let mails = parse_mail_subjects(&input);
    assert_eq!(mails.len(), 1);
    assert_eq!(mails[0].to, "first@b.com");
    assert_eq!(mails[0].subject.as_deref(), Some("one"));
}

#[test]
fn to_without_brackets_is_kept_verbatim() {
    let input = lines(&["by host with ESMTPS id Z", "To: a@b.com", "Subject: s"]);
    let mails = parse_mail_subjects(&input);
    assert_eq!(mails.len(), 1);
    assert_eq!(mails[0].to, "a@b.com");
}

#[test]
fn subject_keeps_case_and_spaces() {
    let input = lines(&["by host with ESMTPS id Z", "To: <a@b.com>", "Subject: Re: HELLO world "]);
    let mails = parse_mail_subjects(&input);
    assert_eq!(mails.len(), 1);
    assert_eq!(mails[0].subject.as_deref(), Some("Re: HELLO world "));
}

#[test]
fn id_field_trims_tabs_and_newlines() {
    let r = id_from_log_line("a:b:c:\t ABCDEFGHIJ \t: rest");
    assert_eq!(r, Some("ABCDEFGHIJ"));
}
