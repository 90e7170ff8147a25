//! The correlation table: recipient-address buckets of mail records,
//! deduplicated by message ID.
//!
//! Two mutations exist.  `insert_mails` appends a record to its recipient's
//! bucket unless the bucket already holds the record's ID; `update_mail_subjects`
//! fills in the subject of an already-stored record whose subject is still
//! unset, and drops the update when the recipient has no bucket.  Both are
//! specified as folds of a one-record step function over the batch, and the
//! table's invariant — unique bucket keys, unique IDs within a bucket, every
//! record filed under its own recipient — is proved preserved.

use vstd::prelude::*;

verus! {

/// Mathematical image of one mail record.
#[verifier::ext_equal]
pub struct MailView {
    pub id: Seq<char>,
    pub line: Option<Seq<char>>,
    pub subject: Option<Seq<char>>,
    pub to: Seq<char>,
}

/// One correlated mail record.
///
/// `line` is the originating delivery-log line (present only for
/// delivery-log-derived records); `subject` is filled in once content is
/// correlated.  Within a bucket no two records share an `id`.
#[derive(Debug, Clone)]
pub struct Mail {
    pub id: String,
    pub line: Option<String>,
    pub subject: Option<String>,
    pub to: String,
}

impl View for Mail {
    type V = MailView;

    open spec fn view(&self) -> MailView {
        MailView {
            id: self.id@,
            line: self.line.deep_view(),
            subject: self.subject.deep_view(),
            to: self.to@,
        }
    }
}

/// Copy an optional string.
pub(crate) fn clone_opt(o: &Option<String>) -> (r: Option<String>)
    ensures
        r.deep_view() == o.deep_view(),
{
    match o {
        Option::Some(s) => Option::Some(s.clone()),
        Option::None => Option::None,
    }
}

impl Mail {
    /// A record with the same contents.
    pub fn duplicate(&self) -> (r: Mail)
        ensures
            r@ == self@,
    {
        Mail {
            id: self.id.clone(),
            line: clone_opt(&self.line),
            subject: clone_opt(&self.subject),
            to: self.to.clone(),
        }
    }
}

/// The views of a sequence of records.
pub open spec fn mail_views(s: Seq<Mail>) -> Seq<MailView> {
    s.map_values(|m: Mail| m@)
}

/// Mathematical image of one bucket.
#[verifier::ext_equal]
pub struct BucketView {
    pub to: Seq<char>,
    pub mails: Seq<MailView>,
}

/// The records stored under one recipient address.
#[derive(Debug, Clone)]
pub struct Bucket {
    pub to: String,
    pub mails: Vec<Mail>,
}

impl View for Bucket {
    type V = BucketView;

    open spec fn view(&self) -> BucketView {
        BucketView { to: self.to@, mails: mail_views(self.mails@) }
    }
}

/// Index of the first bucket at or after `from` keyed by `to`, or `-1`.
pub open spec fn key_index_from(s: Seq<BucketView>, to: Seq<char>, from: int) -> int
    decreases s.len() - from,
{
    if from < 0 || from >= s.len() {
        -1
    } else if s[from].to == to {
        from
    } else {
        key_index_from(s, to, from + 1)
    }
}

/// Index of the bucket keyed by `to`, or `-1`.
pub open spec fn key_index(s: Seq<BucketView>, to: Seq<char>) -> int {
    key_index_from(s, to, 0)
}

pub proof fn lemma_key_index_from(s: Seq<BucketView>, to: Seq<char>, from: int)
    requires
        0 <= from <= s.len(),
    ensures
        -1 <= key_index_from(s, to, from) < s.len(),
        key_index_from(s, to, from) >= 0 ==> from <= key_index_from(s, to, from)
            && s[key_index_from(s, to, from)].to == to,
        key_index_from(s, to, from) >= 0 ==> forall|k: int|
            from <= k < key_index_from(s, to, from) ==> (#[trigger] s[k]).to != to,
        key_index_from(s, to, from) == -1 ==> forall|k: int|
            from <= k < s.len() ==> (#[trigger] s[k]).to != to,
    decreases s.len() - from,
{
    if from < s.len() && s[from].to != to {
        lemma_key_index_from(s, to, from + 1);
    }
}

pub proof fn lemma_key_index_from_is(s: Seq<BucketView>, to: Seq<char>, from: int, i: int)
    requires
        0 <= from <= s.len(),
        from <= i <= s.len(),
        i < s.len() ==> s[i].to == to,
        forall|k: int| from <= k < i ==> (#[trigger] s[k]).to != to,
    ensures
        i < s.len() ==> key_index_from(s, to, from) == i,
        i == s.len() ==> key_index_from(s, to, from) == -1,
    decreases i - from,
{
    if from < i {
        lemma_key_index_from_is(s, to, from + 1, i);
    }
}

/// Index of the first record at or after `from` carrying `id`, or `-1`.
pub open spec fn id_index_from(ms: Seq<MailView>, id: Seq<char>, from: int) -> int
    decreases ms.len() - from,
{
    if from < 0 || from >= ms.len() {
        -1
    } else if ms[from].id == id {
        from
    } else {
        id_index_from(ms, id, from + 1)
    }
}

/// Index of the first record carrying `id`, or `-1`.
pub open spec fn id_index(ms: Seq<MailView>, id: Seq<char>) -> int {
    id_index_from(ms, id, 0)
}

pub proof fn lemma_id_index_from(ms: Seq<MailView>, id: Seq<char>, from: int)
    requires
        0 <= from <= ms.len(),
    ensures
        -1 <= id_index_from(ms, id, from) < ms.len(),
        id_index_from(ms, id, from) >= 0 ==> from <= id_index_from(ms, id, from)
            && ms[id_index_from(ms, id, from)].id == id,
        id_index_from(ms, id, from) >= 0 ==> forall|k: int|
            from <= k < id_index_from(ms, id, from) ==> (#[trigger] ms[k]).id != id,
        id_index_from(ms, id, from) == -1 ==> forall|k: int|
            from <= k < ms.len() ==> (#[trigger] ms[k]).id != id,
    decreases ms.len() - from,
{
    if from < ms.len() && ms[from].id != id {
        lemma_id_index_from(ms, id, from + 1);
    }
}

pub proof fn lemma_id_index_from_is(ms: Seq<MailView>, id: Seq<char>, from: int, i: int)
    requires
        0 <= from <= ms.len(),
        from <= i <= ms.len(),
        i < ms.len() ==> ms[i].id == id,
        forall|k: int| from <= k < i ==> (#[trigger] ms[k]).id != id,
    ensures
        i < ms.len() ==> id_index_from(ms, id, from) == i,
        i == ms.len() ==> id_index_from(ms, id, from) == -1,
    decreases i - from,
{
    if from < i {
        lemma_id_index_from_is(ms, id, from + 1, i);
    }
}

/// A record that a subject update may fill in: it carries `id` and its
/// subject is still unset.
pub open spec fn updatable(mv: MailView, id: Seq<char>) -> bool {
    mv.id == id && mv.subject is None
}

/// Index of the first record at or after `from` that a subject update for
/// `id` may fill in, or `-1`.
pub open spec fn upd_index_from(ms: Seq<MailView>, id: Seq<char>, from: int) -> int
    decreases ms.len() - from,
{
    if from < 0 || from >= ms.len() {
        -1
    } else if updatable(ms[from], id) {
        from
    } else {
        upd_index_from(ms, id, from + 1)
    }
}

/// Index of the first record a subject update for `id` may fill in, or `-1`.
pub open spec fn upd_index(ms: Seq<MailView>, id: Seq<char>) -> int {
    upd_index_from(ms, id, 0)
}

pub proof fn lemma_upd_index_from(ms: Seq<MailView>, id: Seq<char>, from: int)
    requires
        0 <= from <= ms.len(),
    ensures
        -1 <= upd_index_from(ms, id, from) < ms.len(),
        upd_index_from(ms, id, from) >= 0 ==> from <= upd_index_from(ms, id, from) && updatable(
            ms[upd_index_from(ms, id, from)],
            id,
        ),
        upd_index_from(ms, id, from) >= 0 ==> forall|k: int|
            from <= k < upd_index_from(ms, id, from) ==> !updatable(#[trigger] ms[k], id),
        upd_index_from(ms, id, from) == -1 ==> forall|k: int|
            from <= k < ms.len() ==> !updatable(#[trigger] ms[k], id),
    decreases ms.len() - from,
{
    if from < ms.len() && !updatable(ms[from], id) {
        lemma_upd_index_from(ms, id, from + 1);
    }
}

pub proof fn lemma_upd_index_from_is(ms: Seq<MailView>, id: Seq<char>, from: int, i: int)
    requires
        0 <= from <= ms.len(),
        from <= i <= ms.len(),
        i < ms.len() ==> updatable(ms[i], id),
        forall|k: int| from <= k < i ==> !updatable(#[trigger] ms[k], id),
    ensures
        i < ms.len() ==> upd_index_from(ms, id, from) == i,
        i == ms.len() ==> upd_index_from(ms, id, from) == -1,
    decreases i - from,
{
    if from < i {
        lemma_upd_index_from_is(ms, id, from + 1, i);
    }
}

/// A bucket is well formed: IDs are pairwise distinct and every record is
/// filed under the bucket's own recipient.
pub open spec fn bucket_wf(b: BucketView) -> bool {
    &&& forall|p: int, q: int|
        0 <= p < q < b.mails.len() ==> (#[trigger] b.mails[p]).id != (#[trigger] b.mails[q]).id
    &&& forall|p: int| 0 <= p < b.mails.len() ==> (#[trigger] b.mails[p]).to == b.to
}

/// The table is well formed: bucket keys are pairwise distinct and each
/// bucket is well formed.
pub open spec fn db_wf(s: Seq<BucketView>) -> bool {
    &&& forall|i: int, j: int|
        0 <= i < j < s.len() ==> (#[trigger] s[i]).to != (#[trigger] s[j]).to
    &&& forall|i: int| 0 <= i < s.len() ==> bucket_wf(#[trigger] s[i])
}

/// One record folded into the table: appended to its recipient's bucket
/// unless that bucket already holds its ID; a missing bucket is created.
pub open spec fn insert_one(s: Seq<BucketView>, m: MailView) -> Seq<BucketView> {
    let i = key_index(s, m.to);
    if i < 0 {
        s.push(BucketView { to: m.to, mails: seq![m] })
    } else if id_index(s[i].mails, m.id) >= 0 {
        s
    } else {
        s.update(i, BucketView { to: s[i].to, mails: s[i].mails.push(m) })
    }
}

/// Whether folding `m` into `s` stores a new record.
pub open spec fn insert_one_added(s: Seq<BucketView>, m: MailView) -> bool {
    key_index(s, m.to) < 0 || id_index(s[key_index(s, m.to)].mails, m.id) < 0
}

/// A whole batch folded into the table, in batch order.
pub open spec fn insert_all(s: Seq<BucketView>, ms: Seq<MailView>) -> Seq<BucketView>
    decreases ms.len(),
{
    if ms.len() == 0 {
        s
    } else {
        insert_all(insert_one(s, ms[0]), ms.drop_first())
    }
}

/// How many records of the batch are stored (the duplicates are not).
pub open spec fn insert_count(s: Seq<BucketView>, ms: Seq<MailView>) -> int
    decreases ms.len(),
{
    if ms.len() == 0 {
        0
    } else {
        (if insert_one_added(s, ms[0]) {
            1int
        } else {
            0int
        }) + insert_count(insert_one(s, ms[0]), ms.drop_first())
    }
}

pub proof fn lemma_insert_all_push(s: Seq<BucketView>, ms: Seq<MailView>, m: MailView)
    ensures
        insert_all(s, ms.push(m)) == insert_one(insert_all(s, ms), m),
        insert_count(s, ms.push(m)) == insert_count(s, ms) + (if insert_one_added(
            insert_all(s, ms),
            m,
        ) {
            1int
        } else {
            0int
        }),
    decreases ms.len(),
{
    if ms.len() == 0 {
        assert(ms.push(m)[0] == m);
        assert(ms.push(m).drop_first() =~= ms);
        assert(insert_all(s, ms.push(m)) == insert_all(insert_one(s, m), ms));
        assert(insert_all(insert_one(s, m), ms) == insert_one(s, m));
        assert(insert_all(s, ms) == s);
        assert(insert_count(s, ms.push(m)) == (if insert_one_added(s, m) {
            1int
        } else {
            0int
        }) + insert_count(insert_one(s, m), ms));
        assert(insert_count(insert_one(s, m), ms) == 0);
        assert(insert_count(s, ms) == 0);
    } else {
        assert(ms.push(m)[0] == ms[0]);
        assert(ms.push(m).drop_first() =~= ms.drop_first().push(m));
        lemma_insert_all_push(insert_one(s, ms[0]), ms.drop_first(), m);
        assert(insert_all(s, ms.push(m)) == insert_all(
            insert_one(s, ms[0]),
            ms.drop_first().push(m),
        ));
        assert(insert_all(s, ms) == insert_all(insert_one(s, ms[0]), ms.drop_first()));
        assert(insert_count(s, ms.push(m)) == (if insert_one_added(s, ms[0]) {
            1int
        } else {
            0int
        }) + insert_count(insert_one(s, ms[0]), ms.drop_first().push(m)));
        assert(insert_count(s, ms) == (if insert_one_added(s, ms[0]) {
            1int
        } else {
            0int
        }) + insert_count(insert_one(s, ms[0]), ms.drop_first()));
    }
}

/// Folding one record in preserves the table invariant.
pub proof fn lemma_insert_one_wf(s: Seq<BucketView>, m: MailView)
    requires
        db_wf(s),
    ensures
        db_wf(insert_one(s, m)),
{
    lemma_key_index_from(s, m.to, 0);
    let i = key_index(s, m.to);
    if i < 0 {
        let t = s.push(BucketView { to: m.to, mails: seq![m] });
        assert forall|x: int, y: int| 0 <= x < y < t.len() implies (#[trigger] t[x]).to != (
        #[trigger] t[y]).to by {
            if y == s.len() {
                assert(s[x].to != m.to);
            }
        }
        assert forall|x: int| 0 <= x < t.len() implies bucket_wf(#[trigger] t[x]) by {
            if x < s.len() {
                assert(bucket_wf(s[x]));
            }
        }
    } else {
        lemma_id_index_from(s[i].mails, m.id, 0);
        if id_index(s[i].mails, m.id) < 0 {
            let nb = BucketView { to: s[i].to, mails: s[i].mails.push(m) };
            let t = s.update(i, nb);
            assert(bucket_wf(s[i]));
            assert forall|p: int, q: int| 0 <= p < q < nb.mails.len() implies (
            #[trigger] nb.mails[p]).id != (#[trigger] nb.mails[q]).id by {
                if q == s[i].mails.len() {
                    assert(s[i].mails[p].id != m.id);
                }
            }
            assert forall|p: int| 0 <= p < nb.mails.len() implies (#[trigger] nb.mails[p]).to
                == nb.to by {}
            assert(bucket_wf(nb));
            assert forall|x: int, y: int| 0 <= x < y < t.len() implies (#[trigger] t[x]).to != (
            #[trigger] t[y]).to by {
                assert(s[x].to != s[y].to);
            }
            assert forall|x: int| 0 <= x < t.len() implies bucket_wf(#[trigger] t[x]) by {
                if x != i {
                    assert(bucket_wf(s[x]));
                }
            }
        }
    }
}

/// One subject update folded into the table: the first record of the
/// recipient's bucket that carries the ID with its subject still unset gets
/// the incoming subject; a missing bucket or record leaves the table as it
/// was.
pub open spec fn update_one(s: Seq<BucketView>, m: MailView) -> Seq<BucketView> {
    let i = key_index(s, m.to);
    if i < 0 {
        s
    } else {
        let p = upd_index(s[i].mails, m.id);
        if p < 0 {
            s
        } else {
            s.update(
                i,
                BucketView {
                    to: s[i].to,
                    mails: s[i].mails.update(
                        p,
                        MailView { subject: m.subject, ..s[i].mails[p] },
                    ),
                },
            )
        }
    }
}

/// Whether folding subject update `m` into `s` fills a record in.
pub open spec fn update_one_hit(s: Seq<BucketView>, m: MailView) -> bool {
    key_index(s, m.to) >= 0 && upd_index(s[key_index(s, m.to)].mails, m.id) >= 0
}

/// A whole batch of subject updates folded into the table, in batch order.
pub open spec fn update_all(s: Seq<BucketView>, ms: Seq<MailView>) -> Seq<BucketView>
    decreases ms.len(),
{
    if ms.len() == 0 {
        s
    } else {
        update_all(update_one(s, ms[0]), ms.drop_first())
    }
}

/// How many updates of the batch fill a record in.
pub open spec fn update_count(s: Seq<BucketView>, ms: Seq<MailView>) -> int
    decreases ms.len(),
{
    if ms.len() == 0 {
        0
    } else {
        (if update_one_hit(s, ms[0]) {
            1int
        } else {
            0int
        }) + update_count(update_one(s, ms[0]), ms.drop_first())
    }
}

pub proof fn lemma_update_all_push(s: Seq<BucketView>, ms: Seq<MailView>, m: MailView)
    ensures
        update_all(s, ms.push(m)) == update_one(update_all(s, ms), m),
        update_count(s, ms.push(m)) == update_count(s, ms) + (if update_one_hit(
            update_all(s, ms),
            m,
        ) {
            1int
        } else {
            0int
        }),
    decreases ms.len(),
{
    if ms.len() == 0 {
        assert(ms.push(m)[0] == m);
        assert(ms.push(m).drop_first() =~= ms);
        assert(update_all(s, ms.push(m)) == update_all(update_one(s, m), ms));
        assert(update_all(update_one(s, m), ms) == update_one(s, m));
        assert(update_all(s, ms) == s);
        assert(update_count(s, ms.push(m)) == (if update_one_hit(s, m) {
            1int
        } else {
            0int
        }) + update_count(update_one(s, m), ms));
        assert(update_count(update_one(s, m), ms) == 0);
        assert(update_count(s, ms) == 0);
    } else {
        assert(ms.push(m)[0] == ms[0]);
        assert(ms.push(m).drop_first() =~= ms.drop_first().push(m));
        lemma_update_all_push(update_one(s, ms[0]), ms.drop_first(), m);
        assert(update_all(s, ms.push(m)) == update_all(
            update_one(s, ms[0]),
            ms.drop_first().push(m),
        ));
        assert(update_all(s, ms) == update_all(update_one(s, ms[0]), ms.drop_first()));
        assert(update_count(s, ms.push(m)) == (if update_one_hit(s, ms[0]) {
            1int
        } else {
            0int
        }) + update_count(update_one(s, ms[0]), ms.drop_first().push(m)));
        assert(update_count(s, ms) == (if update_one_hit(s, ms[0]) {
            1int
        } else {
            0int
        }) + update_count(update_one(s, ms[0]), ms.drop_first()));
    }
}

/// Folding one subject update in preserves the table invariant.
pub proof fn lemma_update_one_wf(s: Seq<BucketView>, m: MailView)
    requires
        db_wf(s),
    ensures
        db_wf(update_one(s, m)),
{
    lemma_key_index_from(s, m.to, 0);
    let i = key_index(s, m.to);
    if i >= 0 {
        lemma_upd_index_from(s[i].mails, m.id, 0);
        let p = upd_index(s[i].mails, m.id);
        if p >= 0 {
            let nb = BucketView {
                to: s[i].to,
                mails: s[i].mails.update(p, MailView { subject: m.subject, ..s[i].mails[p] }),
            };
            let t = s.update(i, nb);
            assert(bucket_wf(s[i]));
            assert forall|x: int, y: int| 0 <= x < y < nb.mails.len() implies (
            #[trigger] nb.mails[x]).id != (#[trigger] nb.mails[y]).id by {
                assert(s[i].mails[x].id != s[i].mails[y].id);
            }
            assert forall|x: int| 0 <= x < nb.mails.len() implies (#[trigger] nb.mails[x]).to
                == nb.to by {
                assert(s[i].mails[x].to == s[i].to);
            }
            assert(bucket_wf(nb));
            assert forall|x: int, y: int| 0 <= x < y < t.len() implies (#[trigger] t[x]).to != (
            #[trigger] t[y]).to by {
                assert(s[x].to != s[y].to);
            }
            assert forall|x: int| 0 <= x < t.len() implies bucket_wf(#[trigger] t[x]) by {
                if x != i {
                    assert(bucket_wf(s[x]));
                }
            }
        }
    }
}

/// The shared correlation table.
pub struct MailDB {
    buckets: Vec<Bucket>,
}

impl View for MailDB {
    type V = Seq<BucketView>;

    closed spec fn view(&self) -> Seq<BucketView> {
        self.buckets@.map_values(|b: Bucket| b@)
    }
}

impl MailDB {
    /// The table invariant.
    pub open spec fn wf(&self) -> bool {
        db_wf(self@)
    }

    /// An empty table.
    pub fn new() -> (db: MailDB)
        ensures
            db@ == Seq::<BucketView>::empty(),
            db.wf(),
    {
        let db = MailDB { buckets: Vec::new() };
        proof {
            assert(db@ =~= Seq::<BucketView>::empty());
        }
        db
    }

    /// Index of the bucket keyed by `to`, if any.
    fn find_bucket(&self, to: &String) -> (r: Option<usize>)
        ensures
            match r {
                Option::Some(i) => i == key_index(self@, to@),
                Option::None => key_index(self@, to@) == -1,
            },
    {
        let n = self.buckets.len();
        let mut i: usize = 0;
        while i < n
            invariant
                i <= n,
                n == self.buckets@.len(),
                self@.len() == n,
                forall|k: int| 0 <= k < i ==> (#[trigger] self@[k]).to != to@,
            decreases n - i,
        {
            if self.buckets[i].to == *to {
                proof {
                    lemma_key_index_from_is(self@, to@, 0, i as int);
                }
                return Option::Some(i);
            }
            i = i + 1;
        }
        proof {
            lemma_key_index_from_is(self@, to@, 0, n as int);
        }
        Option::None
    }

    /// Whether the bucket at `i` already stores a record carrying `id`.
    fn has_id(&self, i: usize, id: &String) -> (r: bool)
        requires
            i < self@.len(),
        ensures
            r == (id_index(self@[i as int].mails, id@) >= 0),
    {
        let ms = &self.buckets[i].mails;
        let n = ms.len();
        let mut p: usize = 0;
        while p < n
            invariant
                p <= n,
                i < self@.len(),
                n == self@[i as int].mails.len(),
                ms@ == self.buckets@[i as int].mails@,
                forall|k: int| 0 <= k < p ==> (#[trigger] self@[i as int].mails[k]).id != id@,
            decreases n - p,
        {
            if ms[p].id == *id {
                proof {
                    lemma_id_index_from_is(self@[i as int].mails, id@, 0, p as int);
                }
                return true;
            }
            p = p + 1;
        }
        proof {
            lemma_id_index_from_is(self@[i as int].mails, id@, 0, n as int);
        }
        false
    }

    /// Fold one record into the table.
    fn insert_one_mail(&mut self, m: Mail) -> (added: bool)
        requires
            old(self).wf(),
        ensures
            final(self).wf(),
            final(self)@ == insert_one(old(self)@, m@),
            added == insert_one_added(old(self)@, m@),
    {
        proof {
            lemma_insert_one_wf(self@, m@);
        }
        match self.find_bucket(&m.to) {
            Option::None => {
                let to2 = m.to.clone();
                self.buckets.push(Bucket { to: to2, mails: vec![m] });
                proof {
                    assert(self@ =~~= insert_one(old(self)@, m@));
                }
                true
            },
            Option::Some(i) => {
                proof {
                    lemma_key_index_from(old(self)@, m@.to, 0);
                }
                if self.has_id(i, &m.id) {
                    proof {
                        assert(self@ =~~= insert_one(old(self)@, m@));
                    }
                    false
                } else {
                    self.buckets[i].mails.push(m);
                    proof {
                        assert(self@ =~~= insert_one(old(self)@, m@));
                    }
                    true
                }
            },
        }
    }

    /// Insert a batch of records, deduplicated by `(to, id)`, and return
    /// how many were actually stored.
    pub fn insert_mails(&mut self, new_mails: Vec<Mail>) -> (updates: i32)
        requires
            old(self).wf(),
            new_mails@.len() < 0x8000_0000,
        ensures
            final(self).wf(),
            final(self)@ == insert_all(old(self)@, mail_views(new_mails@)),
            updates as int == insert_count(old(self)@, mail_views(new_mails@)),
    {
        let ghost ms = mail_views(new_mails@);
        let n = new_mails.len();
        let mut updates: i32 = 0;
        let mut k: usize = 0;
        while k < n
            invariant
                k <= n,
                n == new_mails@.len(),
                n < 0x8000_0000,
                ms == mail_views(new_mails@),
                ms.len() == n,
                old(self).wf(),
                self.wf(),
                self@ == insert_all(old(self)@, ms.take(k as int)),
                updates as int == insert_count(old(self)@, ms.take(k as int)),
                0 <= updates <= k,
            decreases n - k,
        {
            let m = new_mails[k].duplicate();
            proof {
                assert(ms.take(k + 1).drop_last() =~= ms.take(k as int));
                assert(ms.take(k + 1) =~= ms.take(k as int).push(ms[k as int]));
                lemma_insert_all_push(old(self)@, ms.take(k as int), ms[k as int]);
                assert(m@ == ms[k as int]);
            }
            let added = self.insert_one_mail(m);
            if added {
                updates = updates + 1;
            }
            k = k + 1;
        }
        proof {
            assert(ms.take(n as int) =~= ms);
        }
        updates
    }

    /// How many recipient buckets the table holds.
    pub fn bucket_count(&self) -> (n: usize)
        ensures
            n == self@.len(),
    {
        self.buckets.len()
    }

    /// Read access to the bucket at index `i`.
    pub fn bucket_at(&self, i: usize) -> (b: &Bucket)
        requires
            i < self@.len(),
        ensures
            b@ == self@[i as int],
    {
        &self.buckets[i]
    }

    /// Index of the first record of bucket `i` that a subject update for
    /// `id` may fill in, if any.
    fn find_updatable(&self, i: usize, id: &String) -> (r: Option<usize>)
        requires
            i < self@.len(),
        ensures
            match r {
                Option::Some(p) => p == upd_index(self@[i as int].mails, id@),
                Option::None => upd_index(self@[i as int].mails, id@) == -1,
            },
    {
        let ms = &self.buckets[i].mails;
        let n = ms.len();
        let mut p: usize = 0;
        while p < n
            invariant
                p <= n,
                i < self@.len(),
                n == self@[i as int].mails.len(),
                ms@ == self.buckets@[i as int].mails@,
                forall|k: int| 0 <= k < p ==> !updatable(#[trigger] self@[i as int].mails[k], id@),
            decreases n - p,
        {
            if ms[p].subject.is_none() && ms[p].id == *id {
                proof {
                    lemma_upd_index_from_is(self@[i as int].mails, id@, 0, p as int);
                }
                return Option::Some(p);
            }
            p = p + 1;
        }
        proof {
            lemma_upd_index_from_is(self@[i as int].mails, id@, 0, n as int);
        }
        Option::None
    }

    /// Fold one subject update into the table.
    fn update_one_mail(&mut self, m: Mail) -> (hit: bool)
        requires
            old(self).wf(),
        ensures
            final(self).wf(),
            final(self)@ == update_one(old(self)@, m@),
            hit == update_one_hit(old(self)@, m@),
    {
        proof {
            lemma_update_one_wf(self@, m@);
        }
        match self.find_bucket(&m.to) {
            Option::None => false,
            Option::Some(i) => {
                proof {
                    lemma_key_index_from(old(self)@, m@.to, 0);
                }
                match self.find_updatable(i, &m.id) {
                    Option::None => false,
                    Option::Some(p) => {
                        proof {
                            lemma_upd_index_from(old(self)@[i as int].mails, m@.id, 0);
                        }
                        self.buckets[i].mails[p].subject = m.subject;
                        proof {
                            assert(self@ =~~= update_one(old(self)@, m@));
                        }
                        true
                    },
                }
            },
        }
    }

    /// Fill in subjects for a batch of content-derived records and return
    /// how many stored records were actually updated.  An update whose
    /// recipient has no bucket, or whose record already carries a subject,
    /// is dropped.
    pub fn update_mail_subjects(&mut self, new_mails: Vec<Mail>) -> (updates: i32)
        requires
            old(self).wf(),
            new_mails@.len() < 0x8000_0000,
        ensures
            final(self).wf(),
            final(self)@ == update_all(old(self)@, mail_views(new_mails@)),
            updates as int == update_count(old(self)@, mail_views(new_mails@)),
    {
        let ghost ms = mail_views(new_mails@);
        let n = new_mails.len();
        let mut updates: i32 = 0;
        let mut k: usize = 0;
        while k < n
            invariant
                k <= n,
                n == new_mails@.len(),
                n < 0x8000_0000,
                ms == mail_views(new_mails@),
                ms.len() == n,
                old(self).wf(),
                self.wf(),
                self@ == update_all(old(self)@, ms.take(k as int)),
                updates as int == update_count(old(self)@, ms.take(k as int)),
                0 <= updates <= k,
            decreases n - k,
        {
            let m = new_mails[k].duplicate();
            proof {
                assert(ms.take(k + 1).drop_last() =~= ms.take(k as int));
                assert(ms.take(k + 1) =~= ms.take(k as int).push(ms[k as int]));
                lemma_update_all_push(old(self)@, ms.take(k as int), ms[k as int]);
                assert(m@ == ms[k as int]);
            }
            let hit = self.update_one_mail(m);
            if hit {
                updates = updates + 1;
            }
            k = k + 1;
        }
        proof {
            assert(ms.take(n as int) =~= ms);
        }
        updates
    }
}

/// Law: folding in a record whose `(to, id)` pair was just stored changes
/// nothing and counts nothing, so a pair inserted twice is stored once.
pub proof fn lemma_insert_duplicate(s: Seq<BucketView>, m1: MailView, m2: MailView)
    requires
        m1.to == m2.to,
        m1.id == m2.id,
    ensures
        insert_one(insert_one(s, m1), m2) == insert_one(s, m1),
        !insert_one_added(insert_one(s, m1), m2),
{
    lemma_key_index_from(s, m1.to, 0);
    let ki = key_index(s, m1.to);
    let s1 = insert_one(s, m1);
    if ki < 0 {
        let nlen = s.len() as int;
        assert(s1[nlen].to == m2.to);
        assert forall|k: int| 0 <= k < nlen implies (#[trigger] s1[k]).to != m2.to by {
            assert(s[k].to != m1.to);
        }
        lemma_key_index_from_is(s1, m2.to, 0, nlen);
        assert(key_index(s1, m2.to) == nlen);
        assert(s1[nlen].mails == seq![m1]);
        lemma_id_index_from_is(s1[nlen].mails, m2.id, 0, 0);
        assert(id_index(s1[nlen].mails, m2.id) == 0);
    } else {
        lemma_id_index_from(s[ki].mails, m1.id, 0);
        if id_index(s[ki].mails, m1.id) >= 0 {
            assert(s1 == s);
            assert(key_index(s1, m2.to) == ki);
            assert(id_index(s1[ki].mails, m2.id) >= 0);
        } else {
            assert(s1[ki].to == m2.to);
            assert forall|k: int| 0 <= k < ki implies (#[trigger] s1[k]).to != m2.to by {
                assert(s[k].to != m1.to);
            }
            lemma_key_index_from_is(s1, m2.to, 0, ki);
            assert(key_index(s1, m2.to) == ki);
            let nm = s1[ki].mails;
            assert(nm == s[ki].mails.push(m1));
            assert(nm[nm.len() - 1].id == m2.id);
            lemma_id_index_from(nm, m2.id, 0);
            if id_index(nm, m2.id) == -1 {
                assert(nm[nm.len() - 1].id != m2.id);
            }
            assert(id_index(nm, m2.id) >= 0);
        }
    }
}

/// Law: the same pair offered again in a later batch is also stored once,
/// and that batch counts zero stored records for it.
pub proof fn lemma_insert_mails_duplicate(s: Seq<BucketView>, m1: MailView, m2: MailView)
    requires
        m1.to == m2.to,
        m1.id == m2.id,
    ensures
        insert_all(insert_all(s, seq![m1]), seq![m2]) == insert_all(s, seq![m1]),
        insert_count(insert_all(s, seq![m1]), seq![m2]) == 0,
{
    let s1 = insert_one(s, m1);
    assert(seq![m1].drop_first() =~= Seq::<MailView>::empty());
    assert(seq![m2].drop_first() =~= Seq::<MailView>::empty());
    assert(insert_all(s, seq![m1]) == insert_all(s1, Seq::<MailView>::empty()));
    assert(insert_all(s, seq![m1]) == s1);
    lemma_insert_duplicate(s, m1, m2);
    assert(insert_all(s1, seq![m2]) == insert_all(insert_one(s1, m2), Seq::<MailView>::empty()));
    assert(insert_all(s1, seq![m2]) == s1);
    assert(insert_count(s1, seq![m2]) == insert_count(
        insert_one(s1, m2),
        Seq::<MailView>::empty(),
    ));
}

/// Law: a subject update leaves the table's shape alone and touches no
/// record whose subject is already set.
pub proof fn lemma_update_preserves_set(s: Seq<BucketView>, m: MailView)
    ensures
        update_one(s, m).len() == s.len(),
        forall|i: int|
            0 <= i < s.len() ==> (#[trigger] update_one(s, m)[i]).to == s[i].to && update_one(
                s,
                m,
            )[i].mails.len() == s[i].mails.len(),
        forall|i: int, p: int|
            0 <= i < s.len() && 0 <= p < s[i].mails.len() && (#[trigger] s[i].mails[p]).subject
                is Some ==> update_one(s, m)[i].mails[p] == s[i].mails[p],
{
    lemma_key_index_from(s, m.to, 0);
    let ki = key_index(s, m.to);
    if ki >= 0 {
        lemma_upd_index_from(s[ki].mails, m.id, 0);
    }
}

/// Law: a subject update applied twice fills a record in at most once: the
/// first application leaves no record the same update could still fill.
pub proof fn lemma_update_idempotent(s: Seq<BucketView>, m: MailView)
    requires
        db_wf(s),
        m.subject is Some,
    ensures
        update_one(update_one(s, m), m) == update_one(s, m),
        !update_one_hit(update_one(s, m), m),
{
    lemma_key_index_from(s, m.to, 0);
    let ki = key_index(s, m.to);
    if ki >= 0 {
        lemma_upd_index_from(s[ki].mails, m.id, 0);
        let p = upd_index(s[ki].mails, m.id);
        if p >= 0 {
            let s1 = update_one(s, m);
            assert(s1[ki].to == m.to);
            assert forall|k: int| 0 <= k < ki implies (#[trigger] s1[k]).to != m.to by {
                assert(s[k].to != m.to);
            }
            lemma_key_index_from_is(s1, m.to, 0, ki);
            assert(key_index(s1, m.to) == ki);
            let nm = s1[ki].mails;
            assert(bucket_wf(s[ki]));
            assert forall|q: int| 0 <= q < nm.len() implies !updatable(#[trigger] nm[q], m.id) by {
                if q == p {
                    assert(nm[q].subject is Some);
                } else if nm[q].id == m.id {
                    assert(s[ki].mails[q].id == s[ki].mails[p].id);
                }
            }
            lemma_upd_index_from_is(nm, m.id, 0, nm.len() as int);
            assert(upd_index(nm, m.id) == -1);
        }
    }
}

/// Law: a subject update for a recipient with no bucket fills nothing in,
/// creates no bucket, and leaves the table exactly as it was.
pub proof fn lemma_update_missing_bucket(s: Seq<BucketView>, m: MailView)
    requires
        forall|i: int| 0 <= i < s.len() ==> (#[trigger] s[i]).to != m.to,
    ensures
        update_one(s, m) == s,
        !update_one_hit(s, m),
{
    lemma_key_index_from_is(s, m.to, 0, s.len() as int);
}

/// Unfold the fold of a one-update batch.
pub proof fn lemma_update_all_singleton(s: Seq<BucketView>, m: MailView)
    ensures
        update_all(s, seq![m]) == update_one(s, m),
        update_count(s, seq![m]) == (if update_one_hit(s, m) {
            1int
        } else {
            0int
        }),
{
    assert(seq![m].drop_first() =~= Seq::<MailView>::empty());
    assert(update_all(s, seq![m]) == update_all(update_one(s, m), Seq::<MailView>::empty()));
    assert(update_count(s, seq![m]) == (if update_one_hit(s, m) {
        1int
    } else {
        0int
    }) + update_count(update_one(s, m), Seq::<MailView>::empty()));
}

/// Law: the same subject-bearing update offered again in a later batch
/// changes nothing and counts zero updates.
pub proof fn lemma_update_subjects_idempotent(s: Seq<BucketView>, m: MailView)
    requires
        db_wf(s),
        m.subject is Some,
    ensures
        update_all(update_all(s, seq![m]), seq![m]) == update_all(s, seq![m]),
        update_count(update_all(s, seq![m]), seq![m]) == 0,
{
    lemma_update_all_singleton(s, m);
    lemma_update_idempotent(s, m);
    lemma_update_all_singleton(update_one(s, m), m);
}

/// Law: a one-update batch for a recipient with no bucket returns zero
/// updates and leaves the table exactly as it was.
pub proof fn lemma_update_subjects_missing_bucket(s: Seq<BucketView>, m: MailView)
    requires
        forall|i: int| 0 <= i < s.len() ==> (#[trigger] s[i]).to != m.to,
    ensures
        update_all(s, seq![m]) == s,
        update_count(s, seq![m]) == 0,
{
    lemma_update_all_singleton(s, m);
    lemma_update_missing_bucket(s, m);
}

} // verus!
