//! The two log-format parsers.
//!
//! The delivery-log parser is a stateless line scanner: a line that carries
//! the delivery marker, a bracketed `@`-address and a 10-character
//! colon-delimited ID yields one record, everything else is skipped.  The
//! mail-content parser is a two-state machine: a content marker opens (or
//! restarts) a capture, `To:` and `Subject:` lines fill it, and the record
//! is emitted as soon as ID, recipient and subject are all present.  Both
//! are specified line by line over `Seq<char>` views and the scanners are
//! proved to emit exactly the specified record sequences.

use vstd::prelude::*;

use crate::mail::{mail_views, Mail, MailView};
use crate::text::{
    contains_seq, contains_str, last_token, last_token_str, lemma_seek, predf, scan, seek,
    starts_with_seq, starts_with_str, strip_angles, strip_angles_spec, trim_spec, trim_str,
    CharPred,
};

verus! {

/// The marker a delivery-confirmation line must carry.
pub open spec fn delivery_marker() -> Seq<char> {
    "postfix/smtp["@
}

/// The marker that opens a mail-content capture.
pub open spec fn content_marker() -> Seq<char> {
    "ESMTPS id"@
}

/// The header prefix naming the recipient.
pub open spec fn to_prefix() -> Seq<char> {
    "To: "@
}

/// The header prefix naming the subject.
pub open spec fn subject_prefix() -> Seq<char> {
    "Subject: "@
}

/// The message ID of a delivery-log line: the fourth colon-delimited field,
/// trimmed of whitespace, accepted only when the line has at least four
/// such fields and the trimmed field is exactly ten characters.
pub open spec fn id_of_line(l: Seq<char>) -> Option<Seq<char>> {
    let c0 = seek(l, 0, predf(CharPred::Is(':')));
    if c0 >= l.len() {
        Option::None
    } else {
        let c1 = seek(l, c0 + 1, predf(CharPred::Is(':')));
        if c1 >= l.len() {
            Option::None
        } else {
            let c2 = seek(l, c1 + 1, predf(CharPred::Is(':')));
            if c2 >= l.len() {
                Option::None
            } else {
                let c3 = seek(l, c2 + 1, predf(CharPred::Is(':')));
                let f = trim_spec(l.subrange(c2 + 1, c3));
                if f.len() == 10 {
                    Option::Some(f)
                } else {
                    Option::None
                }
            }
        }
    }
}

/// The recipient address of a delivery-log line: the text after the first
/// `'<'` up to the next `'>'` (or the end of the line), accepted only when
/// it contains `'@'`.
pub open spec fn email_of_line(l: Seq<char>) -> Option<Seq<char>> {
    let lt = seek(l, 0, predf(CharPred::Is('<')));
    if lt >= l.len() {
        Option::None
    } else {
        let gt = seek(l, lt + 1, predf(CharPred::Is('>')));
        let e = l.subrange(lt + 1, gt);
        if seek(e, 0, predf(CharPred::Is('@'))) < e.len() {
            Option::Some(e)
        } else {
            Option::None
        }
    }
}

/// The record one delivery-log line yields, if any: marker present, address
/// and ID both extracted; the subject is unset and the raw line attached.
pub open spec fn delivery_record(l: Seq<char>) -> Option<MailView> {
    if !contains_seq(l, delivery_marker()) {
        Option::None
    } else {
        match (email_of_line(l), id_of_line(l)) {
            (Option::Some(e), Option::Some(i)) => Option::Some(
                MailView { id: i, line: Option::Some(l), subject: Option::None, to: e },
            ),
            _ => Option::None,
        }
    }
}

/// The records a delivery log yields, in file order.
pub open spec fn parse_mails_spec(lines: Seq<Seq<char>>) -> Seq<MailView>
    decreases lines.len(),
{
    if lines.len() == 0 {
        Seq::empty()
    } else {
        parse_mails_spec(lines.drop_last()) + match delivery_record(lines.last()) {
            Option::Some(mv) => seq![mv],
            Option::None => Seq::empty(),
        }
    }
}

/// The message ID of a delivery-log line.
pub fn id_from_log_line<'a>(line: &'a str) -> (r: Option<&'a str>)
    ensures
        r.deep_view() == id_of_line(line@),
{
    let n = line.unicode_len();
    let c0 = scan(line, 0, CharPred::Is(':'));
    proof {
        lemma_seek(line@, 0, predf(CharPred::Is(':')));
    }
    if c0 == n {
        return Option::None;
    }
    let c1 = scan(line, c0 + 1, CharPred::Is(':'));
    proof {
        lemma_seek(line@, c0 + 1, predf(CharPred::Is(':')));
    }
    if c1 == n {
        return Option::None;
    }
    let c2 = scan(line, c1 + 1, CharPred::Is(':'));
    proof {
        lemma_seek(line@, c1 + 1, predf(CharPred::Is(':')));
    }
    if c2 == n {
        return Option::None;
    }
    let c3 = scan(line, c2 + 1, CharPred::Is(':'));
    proof {
        lemma_seek(line@, c2 + 1, predf(CharPred::Is(':')));
    }
    let f = trim_str(line.substring_char(c2 + 1, c3));
    if f.unicode_len() == 10 {
        Option::Some(f)
    } else {
        Option::None
    }
}

/// The recipient address of a delivery-log line.
pub fn email_from_log_line<'a>(line: &'a str) -> (r: Option<&'a str>)
    ensures
        r.deep_view() == email_of_line(line@),
{
    let n = line.unicode_len();
    let lt = scan(line, 0, CharPred::Is('<'));
    proof {
        lemma_seek(line@, 0, predf(CharPred::Is('<')));
    }
    if lt == n {
        return Option::None;
    }
    let gt = scan(line, lt + 1, CharPred::Is('>'));
    proof {
        lemma_seek(line@, lt + 1, predf(CharPred::Is('>')));
    }
    let e = line.substring_char(lt + 1, gt);
    let en = e.unicode_len();
    let at = scan(e, 0, CharPred::Is('@'));
    if at < en {
        Option::Some(e)
    } else {
        Option::None
    }
}

/// Scan a delivery log and return the records it yields, in file order.
pub fn parse_mails(lines: &Vec<String>) -> (r: Vec<Mail>)
    ensures
        mail_views(r@) == parse_mails_spec(lines.deep_view()),
{
    let n = lines.len();
    let mut mails: Vec<Mail> = Vec::new();
    let mut k: usize = 0;
    proof {
        assert(lines.deep_view().take(0) =~= Seq::<Seq<char>>::empty());
        assert(mail_views(mails@) =~= parse_mails_spec(lines.deep_view().take(0)));
    }
    while k < n
        invariant
            k <= n,
            n == lines@.len(),
            lines.deep_view().len() == n,
            forall|i: int| 0 <= i < n ==> #[trigger] lines.deep_view()[i] == lines@[i]@,
            mail_views(mails@) == parse_mails_spec(lines.deep_view().take(k as int)),
        decreases n - k,
    {
        let line = &lines[k];
        let ghost lv = lines.deep_view()[k as int];
        if contains_str(line.as_str(), "postfix/smtp[") {
            match email_from_log_line(line.as_str()) {
                Option::None => {},
                Option::Some(e) => {
                    match id_from_log_line(line.as_str()) {
                        Option::None => {},
                        Option::Some(ids) => {
                            let m = Mail {
                                id: String::from_str(ids),
                                line: Option::Some(line.clone()),
                                subject: Option::None,
                                to: String::from_str(e),
                            };
                            proof {
                                assert(m@ == delivery_record(lv)->0);
                            }
                            mails.push(m);
                        },
                    }
                },
            }
        }
        proof {
            let taken = lines.deep_view().take(k as int);
            let taken1 = lines.deep_view().take(k + 1);
            assert(taken1.drop_last() =~= taken);
            assert(taken1.last() == lv);
            assert(mail_views(mails@) =~= parse_mails_spec(taken1));
        }
        k = k + 1;
    }
    proof {
        assert(lines.deep_view().take(n as int) =~= lines.deep_view());
    }
    mails
}

/// Capture state of the mail-content parser; an empty field is unset.
#[verifier::ext_equal]
pub struct CaptureView {
    pub capturing: bool,
    pub id: Seq<char>,
    pub to: Seq<char>,
    pub subject: Seq<char>,
}

/// The capture state before any line is read.
pub open spec fn initial_capture() -> CaptureView {
    CaptureView { capturing: false, id: Seq::empty(), to: Seq::empty(), subject: Seq::empty() }
}

/// One line fed to the capture machine: the new state and the record the
/// line emits, if any.  A marker line opens a fresh capture, discarding any
/// unfinished one; `To:` fills the recipient (angle brackets stripped) and
/// `Subject:` the subject, each only while unset; once ID, recipient and
/// subject are all present the record is emitted and the machine goes idle.
pub open spec fn subj_step(st: CaptureView, l: Seq<char>) -> (CaptureView, Option<MailView>) {
    let st1 = if contains_seq(l, content_marker()) {
        CaptureView {
            capturing: true,
            id: last_token(l),
            to: Seq::empty(),
            subject: Seq::empty(),
        }
    } else {
        st
    };
    if !st1.capturing {
        (st1, Option::None)
    } else {
        let to2 = if st1.to.len() == 0 && starts_with_seq(l, to_prefix()) {
            strip_angles_spec(l.skip(to_prefix().len() as int))
        } else {
            st1.to
        };
        let sub2 = if st1.subject.len() == 0 && starts_with_seq(l, subject_prefix()) {
            l.skip(subject_prefix().len() as int)
        } else {
            st1.subject
        };
        if st1.id.len() > 0 && to2.len() > 0 && sub2.len() > 0 {
            (
                CaptureView { capturing: false, id: st1.id, to: to2, subject: sub2 },
                Option::Some(
                    MailView {
                        id: st1.id,
                        line: Option::None,
                        subject: Option::Some(sub2),
                        to: to2,
                    },
                ),
            )
        } else {
            (CaptureView { capturing: true, id: st1.id, to: to2, subject: sub2 }, Option::None)
        }
    }
}

/// The capture machine run over a line sequence: final state and emitted
/// records, in file order.
pub open spec fn run_subjects(st: CaptureView, lines: Seq<Seq<char>>) -> (
    CaptureView,
    Seq<MailView>,
)
    decreases lines.len(),
{
    if lines.len() == 0 {
        (st, Seq::empty())
    } else {
        let prev = run_subjects(st, lines.drop_last());
        let stepd = subj_step(prev.0, lines.last());
        (
            stepd.0,
            match stepd.1 {
                Option::Some(mv) => prev.1.push(mv),
                Option::None => prev.1,
            },
        )
    }
}

/// The records a mail-content dump yields, in file order.
pub open spec fn parse_mail_subjects_spec(lines: Seq<Seq<char>>) -> Seq<MailView> {
    run_subjects(initial_capture(), lines).1
}

/// Scan a mail-content dump and return the subject-bearing records it
/// yields, in file order.
pub fn parse_mail_subjects(lines: &Vec<String>) -> (r: Vec<Mail>)
    ensures
        mail_views(r@) == parse_mail_subjects_spec(lines.deep_view()),
{
    let n = lines.len();
    let mut mails: Vec<Mail> = Vec::new();
    let mut id = String::new();
    let mut to = String::new();
    let mut subject = String::new();
    let mut parse_mail = false;
    proof {
        assert(lines.deep_view().take(0) =~= Seq::<Seq<char>>::empty());
        assert(mail_views(mails@) =~= Seq::<MailView>::empty());
    }
    let mut k: usize = 0;
    while k < n
        invariant
            k <= n,
            n == lines@.len(),
            lines.deep_view().len() == n,
            forall|i: int| 0 <= i < n ==> #[trigger] lines.deep_view()[i] == lines@[i]@,
            parse_mail == run_subjects(
                initial_capture(),
                lines.deep_view().take(k as int),
            ).0.capturing,
            id@ == run_subjects(initial_capture(), lines.deep_view().take(k as int)).0.id,
            to@ == run_subjects(initial_capture(), lines.deep_view().take(k as int)).0.to,
            subject@ == run_subjects(initial_capture(), lines.deep_view().take(k as int)).0.subject,
            mail_views(mails@) == run_subjects(initial_capture(), lines.deep_view().take(k as int)).1,
        decreases n - k,
    {
        let line = &lines[k];
        let ghost lv = lines.deep_view()[k as int];
        let ghost st0 = run_subjects(initial_capture(), lines.deep_view().take(k as int)).0;
        if contains_str(line.as_str(), "ESMTPS id") {
            parse_mail = true;
            id = String::from_str(last_token_str(line.as_str()));
            to = String::new();
            subject = String::new();
        }
        if parse_mail {
            let ln = line.as_str().unicode_len();
            if to.as_str().is_empty() && starts_with_str(line.as_str(), "To: ") {
                proof {
                    reveal_strlit("To: ");
                    assert(lv.subrange(4, lv.len() as int) =~= lv.skip(to_prefix().len() as int));
                }
                to = strip_angles(line.as_str().substring_char(4, ln));
            }
            if subject.as_str().is_empty() && starts_with_str(line.as_str(), "Subject: ") {
                proof {
                    reveal_strlit("Subject: ");
                    assert(lv.subrange(9, lv.len() as int) =~= lv.skip(
                        subject_prefix().len() as int,
                    ));
                }
                subject = String::from_str(line.as_str().substring_char(9, ln));
            }
            if !subject.as_str().is_empty() && !to.as_str().is_empty()
                && !id.as_str().is_empty() {
                parse_mail = false;
                mails.push(
                    Mail {
                        id: id.clone(),
                        line: Option::None,
                        subject: Option::Some(subject.clone()),
                        to: to.clone(),
                    },
                );
            }
        }
        proof {
            let taken = lines.deep_view().take(k as int);
            let taken1 = lines.deep_view().take(k + 1);
            assert(taken1.drop_last() =~= taken);
            assert(taken1.last() == lv);
            let stepd = subj_step(st0, lv);
            assert(parse_mail == stepd.0.capturing);
            assert(id@ == stepd.0.id);
            assert(to@ == stepd.0.to);
            assert(subject@ == stepd.0.subject);
            assert(mail_views(mails@) =~= run_subjects(initial_capture(), taken1).1);
        }
        k = k + 1;
    }
    proof {
        assert(lines.deep_view().take(n as int) =~= lines.deep_view());
    }
    mails
}

/// Law: a delivery log none of whose lines carries the delivery marker
/// yields no records.
pub proof fn lemma_no_marker_no_records(lines: Seq<Seq<char>>)
    requires
        forall|i: int|
            0 <= i < lines.len() ==> !contains_seq(#[trigger] lines[i], delivery_marker()),
    ensures
        parse_mails_spec(lines).len() == 0,
    decreases lines.len(),
{
    if lines.len() > 0 {
        assert forall|i: int|
            0 <= i < lines.drop_last().len() implies !contains_seq(
            #[trigger] lines.drop_last()[i],
            delivery_marker(),
        ) by {
            assert(lines.drop_last()[i] == lines[i]);
        }
        lemma_no_marker_no_records(lines.drop_last());
        assert(lines.last() == lines[lines.len() - 1]);
        assert(delivery_record(lines.last()) is None);
    }
}

/// Law: one line carrying the delivery marker, a bracketed `@`-address and
/// a ten-character ID yields exactly one record, with the subject unset and
/// the raw line attached.
pub proof fn lemma_valid_line_one_record(l: Seq<char>)
    requires
        contains_seq(l, delivery_marker()),
        id_of_line(l) is Some,
        email_of_line(l) is Some,
    ensures
        parse_mails_spec(seq![l]) =~= seq![
            (MailView {
                id: id_of_line(l)->0,
                line: Option::Some(l),
                subject: Option::None,
                to: email_of_line(l)->0,
            }),
        ],
{
    assert(seq![l].drop_last() =~= Seq::<Seq<char>>::empty());
    assert(seq![l].last() == l);
    assert(parse_mails_spec(Seq::<Seq<char>>::empty()).len() == 0);
    assert(delivery_record(l) is Some);
    assert(parse_mails_spec(seq![l]) == parse_mails_spec(Seq::<Seq<char>>::empty()) + seq![
        delivery_record(l)->0,
    ]);
}

} // verus!
