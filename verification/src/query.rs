//! The read side of the correlation table: the mail-lookup filter.
//!
//! A query names a required recipient-address substring and an optional
//! subject substring.  A bucket is selected when its address contains the
//! address filter and at least one of its records passes the subject
//! filter; the subject filter is case-insensitive (both sides folded by
//! `str::to_lowercase`), the address filter an exact substring match.  Each
//! selected bucket's surviving records come back sorted by their raw
//! delivery-log line, absent lines first.  An empty selection is the
//! not-found outcome.

use vstd::prelude::*;

use crate::mail::{mail_views, Bucket, BucketView, Mail, MailDB, MailView};
use crate::text::{
    contains_seq, contains_str, lemma_line_le_total, line_le, line_le_opt, lower_of, to_lowercase,
};

verus! {

broadcast use vstd::seq_lib::group_to_multiset_ensures, vstd::multiset::group_multiset_axioms;

/// A mail lookup: a required recipient-address substring and an optional,
/// case-insensitive subject substring.
pub struct FindMailQuery {
    pub email_address_filter: String,
    pub subject_filter: Option<String>,
}

/// Whether one stored record passes the subject filter.
pub open spec fn mail_passes(m: MailView, filt: Option<Seq<char>>) -> bool {
    match filt {
        Option::None => true,
        Option::Some(f) => m.subject is Some && contains_seq(lower_of(m.subject->0), lower_of(f)),
    }
}

/// The records of one bucket that pass the subject filter, in stored order.
pub open spec fn filtered_mails(b: BucketView, filt: Option<Seq<char>>) -> Seq<MailView> {
    b.mails.filter(|m: MailView| mail_passes(m, filt))
}

/// The buckets a query selects: the address contains the address filter and
/// at least one record passes the subject filter.
pub open spec fn selected(db: Seq<BucketView>, addr: Seq<char>, filt: Option<Seq<char>>) -> Seq<
    BucketView,
> {
    db.filter(
        |b: BucketView| contains_seq(b.to, addr) && filtered_mails(b, filt).len() > 0,
    )
}

/// Records in ascending order of their raw line, absent lines first.
pub open spec fn sorted_by_line(ms: Seq<MailView>) -> bool {
    forall|i: int| 0 <= i && i + 1 < ms.len() ==> line_le((#[trigger] ms[i]).line, ms[i + 1].line)
}

/// The records of `b` that pass the subject filter, copied in stored order.
fn filter_bucket(b: &Bucket, filt: &Option<String>) -> (kept: Vec<Mail>)
    ensures
        mail_views(kept@) == filtered_mails(b@, filt.deep_view()),
{
    let n = b.mails.len();
    let mut kept: Vec<Mail> = Vec::new();
    let mut j: usize = 0;
    proof {
        assert(mail_views(b.mails@).take(0) =~= Seq::<MailView>::empty());
        assert(mail_views(kept@) =~= filtered_mails(
            BucketView { to: b@.to, mails: mail_views(b.mails@).take(0) },
            filt.deep_view(),
        ));
    }
    while j < n
        invariant
            j <= n,
            n == b.mails@.len(),
            mail_views(kept@) == mail_views(b.mails@).take(j as int).filter(
                |m: MailView| mail_passes(m, filt.deep_view()),
            ),
        decreases n - j,
    {
        let m = &b.mails[j];
        let pass = match filt {
            Option::None => true,
            Option::Some(f) => {
                match &m.subject {
                    Option::None => false,
                    Option::Some(s) => {
                        let ls = to_lowercase(s.as_str());
                        let lf = to_lowercase(f.as_str());
                        contains_str(ls.as_str(), lf.as_str())
                    },
                }
            },
        };
        proof {
            assert(pass == mail_passes(mail_views(b.mails@)[j as int], filt.deep_view()));
            reveal(Seq::filter);
            assert(mail_views(b.mails@).take(j + 1).drop_last() =~= mail_views(b.mails@).take(
                j as int,
            ));
            assert(mail_views(b.mails@).take(j + 1).last() == mail_views(b.mails@)[j as int]);
        }
        if pass {
            kept.push(m.duplicate());
        }
        proof {
            assert(mail_views(kept@) =~= mail_views(b.mails@).take(j + 1).filter(
                |m: MailView| mail_passes(m, filt.deep_view()),
            ));
        }
        j = j + 1;
    }
    proof {
        assert(mail_views(b.mails@).take(n as int) =~= mail_views(b.mails@));
    }
    kept
}

/// Copies of the given records, in ascending order of their raw line.
#[verifier::rlimit(60)]
fn sort_mails_by_line(v: Vec<Mail>) -> (out: Vec<Mail>)
    ensures
        mail_views(out@).to_multiset() == mail_views(v@).to_multiset(),
        sorted_by_line(mail_views(out@)),
{
    let n = v.len();
    let mut out: Vec<Mail> = Vec::new();
    let mut k: usize = 0;
    proof {
        assert(mail_views(v@).take(0) =~= Seq::<MailView>::empty());
        assert(mail_views(out@) =~= Seq::<MailView>::empty());
        assert(mail_views(out@).to_multiset() =~= mail_views(v@).take(0).to_multiset());
    }
    while k < n
        invariant
            k <= n,
            n == v@.len(),
            mail_views(out@).to_multiset() == mail_views(v@).take(k as int).to_multiset(),
            sorted_by_line(mail_views(out@)),
        decreases n - k,
    {
        let m = v[k].duplicate();
        let mut p: usize = 0;
        while p < out.len() && !line_le_opt(&m.line, &out[p].line)
            invariant
                p <= out@.len(),
                m@ == mail_views(v@)[k as int],
                forall|q: int|
                    0 <= q < p ==> line_le((#[trigger] mail_views(out@)[q]).line, m@.line),
            decreases out@.len() - p,
        {
            proof {
                lemma_line_le_total(m@.line, mail_views(out@)[p as int].line);
            }
            p = p + 1;
        }
        let ghost before = mail_views(out@);
        out.insert(p, m);
        proof {
            let after = mail_views(out@);
            assert(after =~= before.insert(p as int, m@));
            // Each record of the new sequence, relative to the old one.
            assert(forall|t: int| 0 <= t < p ==> after[t] == before[t]);
            assert(after[p as int] == m@);
            assert(forall|t: int| p < t < after.len() ==> after[t] == before[t - 1]);
            // Order is kept around the insertion point.
            assert forall|i: int| 0 <= i && i + 1 < after.len() implies line_le(
                (#[trigger] after[i]).line,
                after[i + 1].line,
            ) by {
                if i + 1 < p {
                    assert(line_le(before[i].line, before[i + 1].line));
                } else if i + 1 == p {
                    assert(line_le(before[i].line, m@.line));
                } else if i == p {
                    assert(line_le(m@.line, before[i].line));
                } else {
                    assert(line_le(before[i - 1].line, before[i].line));
                }
            }
            // The records are the same, one more copy of `m`.
            assert(after.len() == before.len() + 1);
            assert(after.remove(p as int) =~= before);
            assert(after.remove(p as int).to_multiset() =~= after.to_multiset().remove(
                after[p as int],
            ));
            assert(after.to_multiset() =~= before.to_multiset().insert(m@)) by {
                assert(after[p as int] == m@);
                assert(after.contains(m@));
                assert(after.to_multiset().count(m@) > 0);
                assert(after.to_multiset().remove(m@) =~= before.to_multiset());
            }
            assert(mail_views(v@).take(k + 1).drop_last() =~= mail_views(v@).take(k as int));
            assert(mail_views(v@).take(k + 1) =~= mail_views(v@).take(k as int).push(m@));
        }
        k = k + 1;
    }
    proof {
        assert(mail_views(v@).take(n as int) =~= mail_views(v@));
    }
    out
}

/// Look mail up.  `None` is the not-found outcome: no bucket survives the
/// two filters.  Otherwise every surviving bucket comes back under its
/// address, its surviving records sorted by raw delivery-log line.
pub fn find_mail(db: &MailDB, query: &FindMailQuery) -> (r: Option<Vec<Bucket>>)
    ensures
        ({
            let sel = selected(db@, query.email_address_filter@, query.subject_filter.deep_view());
            match r {
                Option::None => sel.len() == 0,
                Option::Some(out) => {
                    &&& sel.len() > 0
                    &&& out@.len() == sel.len()
                    &&& forall|t: int|
                        0 <= t < sel.len() ==> {
                            &&& (#[trigger] out@[t])@.to == sel[t].to
                            &&& out@[t]@.mails.to_multiset() == filtered_mails(
                                sel[t],
                                query.subject_filter.deep_view(),
                            ).to_multiset()
                            &&& sorted_by_line(out@[t]@.mails)
                        }
                },
            }
        }),
{
    let ghost addr = query.email_address_filter@;
    let ghost filt = query.subject_filter.deep_view();
    let n = db.bucket_count();
    let mut results: Vec<Bucket> = Vec::new();
    let mut i: usize = 0;
    proof {
        assert(db@.take(0) =~= Seq::<BucketView>::empty());
        assert(selected(db@.take(0), addr, filt) =~= Seq::<BucketView>::empty());
    }
    while i < n
        invariant
            i <= n,
            n == db@.len(),
            addr == query.email_address_filter@,
            filt == query.subject_filter.deep_view(),
            results@.len() == selected(db@.take(i as int), addr, filt).len(),
            forall|t: int|
                0 <= t < results@.len() ==> {
                    &&& (#[trigger] results@[t])@.to == selected(db@.take(i as int), addr, filt)[t].to
                    &&& results@[t]@.mails.to_multiset() == filtered_mails(
                        selected(db@.take(i as int), addr, filt)[t],
                        filt,
                    ).to_multiset()
                    &&& sorted_by_line(results@[t]@.mails)
                },
        decreases n - i,
    {
        let b = db.bucket_at(i);
        let ghost bv = db@[i as int];
        let ghost sel_i = selected(db@.take(i as int), addr, filt);
        proof {
            reveal(Seq::filter);
            assert(db@.take(i + 1).drop_last() =~= db@.take(i as int));
            assert(db@.take(i + 1).last() == bv);
        }
        let hit = contains_str(b.to.as_str(), query.email_address_filter.as_str());
        if hit {
            let kept = filter_bucket(b, &query.subject_filter);
            if kept.len() > 0 {
                proof {
                    assert(mail_views(kept@).len() == kept@.len());
                    assert(filtered_mails(bv, filt).len() > 0);
                    assert(selected(db@.take(i + 1), addr, filt) =~= sel_i.push(bv));
                }
                let sorted = sort_mails_by_line(kept);
                let nb = Bucket { to: b.to.clone(), mails: sorted };
                proof {
                    assert(nb@.to == bv.to);
                    assert(nb@.mails.to_multiset() == filtered_mails(bv, filt).to_multiset());
                }
                results.push(nb);
                proof {
                    let sel1 = selected(db@.take(i + 1), addr, filt);
                    assert(forall|t: int| 0 <= t < sel_i.len() ==> sel1[t] == sel_i[t]);
                    assert(sel1[sel_i.len() as int] == bv);
                }
            } else {
                proof {
                    assert(mail_views(kept@).len() == kept@.len());
                    assert(filtered_mails(bv, filt).len() == 0);
                    assert(selected(db@.take(i + 1), addr, filt) =~= sel_i);
                }
            }
        } else {
            proof {
                assert(selected(db@.take(i + 1), addr, filt) =~= sel_i);
            }
        }
        i = i + 1;
    }
    proof {
        assert(db@.take(n as int) =~= db@);
    }
    if results.len() == 0 {
        Option::None
    } else {
        Option::Some(results)
    }
}

} // verus!
