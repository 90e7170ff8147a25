//! Character-level scanning primitives shared by the two log parsers and
//! the query filter.
//!
//! Specifications are stated over `Seq<char>` views.  The directional
//! searches are defined once, as `seek` (first hit at or after an index)
//! and `rseek` (last hit before an index) over a character predicate, and
//! every exec scanner is proved to return exactly those.

use vstd::prelude::*;

verus! {

/// The characters Rust's `char::is_whitespace` accepts.
pub open spec fn is_space_char(c: char) -> bool {
    c == ' ' || c == '\t' || c == '\n' || c == '\r' || c == '\u{b}' || c == '\u{c}'
        || c == '\u{85}' || c == '\u{a0}' || c == '\u{1680}'
        || ('\u{2000}' <= c && c <= '\u{200a}')
        || c == '\u{2028}' || c == '\u{2029}' || c == '\u{202f}' || c == '\u{205f}'
        || c == '\u{3000}'
}

/// Whitespace test matching [`is_space_char`].
pub fn is_space(c: char) -> (r: bool)
    ensures
        r == is_space_char(c),
{
    c == ' ' || c == '\t' || c == '\n' || c == '\r' || c == '\u{b}' || c == '\u{c}'
        || c == '\u{85}' || c == '\u{a0}' || c == '\u{1680}'
        || ('\u{2000}' <= c && c <= '\u{200a}')
        || c == '\u{2028}' || c == '\u{2029}' || c == '\u{202f}' || c == '\u{205f}'
        || c == '\u{3000}'
}

/// A character predicate a scan can look for.
#[derive(Debug, Clone, Copy, PartialEq, Eq, Structural)]
pub enum CharPred {
    /// Exactly this character.
    Is(char),
    /// Any whitespace character.
    Space,
    /// Any character but whitespace.
    NotSpace,
}

/// What [`CharPred`] means of one character.
pub open spec fn pred_holds(p: CharPred, c: char) -> bool {
    match p {
        CharPred::Is(ch) => c == ch,
        CharPred::Space => is_space_char(c),
        CharPred::NotSpace => !is_space_char(c),
    }
}

/// [`CharPred`] as a predicate value.
pub open spec fn predf(p: CharPred) -> spec_fn(char) -> bool {
    |c: char| pred_holds(p, c)
}

/// Index of the first character at or after `from` satisfying `p`, or
/// `s.len()` when there is none.
pub open spec fn seek(s: Seq<char>, from: int, p: spec_fn(char) -> bool) -> int
    decreases s.len() - from,
{
    if from < 0 || from >= s.len() {
        s.len() as int
    } else if p(s[from]) {
        from
    } else {
        seek(s, from + 1, p)
    }
}

/// Index of the last character strictly before `upto` satisfying `p`, or
/// `-1` when there is none.
pub open spec fn rseek(s: Seq<char>, upto: int, p: spec_fn(char) -> bool) -> int
    decreases upto,
{
    if upto <= 0 || upto > s.len() {
        -1
    } else if p(s[upto - 1]) {
        upto - 1
    } else {
        rseek(s, upto - 1, p)
    }
}

pub proof fn lemma_seek(s: Seq<char>, from: int, p: spec_fn(char) -> bool)
    requires
        0 <= from <= s.len(),
    ensures
        from <= seek(s, from, p) <= s.len(),
        seek(s, from, p) < s.len() ==> p(s[seek(s, from, p)]),
        forall|k: int| from <= k < seek(s, from, p) ==> !p(#[trigger] s[k]),
    decreases s.len() - from,
{
    if from < s.len() && !p(s[from]) {
        lemma_seek(s, from + 1, p);
    }
}

pub proof fn lemma_seek_is(s: Seq<char>, from: int, p: spec_fn(char) -> bool, i: int)
    requires
        0 <= from <= i <= s.len(),
        i < s.len() ==> p(s[i]),
        forall|k: int| from <= k < i ==> !p(#[trigger] s[k]),
    ensures
        seek(s, from, p) == i,
    decreases i - from,
{
    if from < i {
        lemma_seek_is(s, from + 1, p, i);
    }
}

pub proof fn lemma_rseek(s: Seq<char>, upto: int, p: spec_fn(char) -> bool)
    requires
        0 <= upto <= s.len(),
    ensures
        -1 <= rseek(s, upto, p) < upto,
        rseek(s, upto, p) >= 0 ==> p(s[rseek(s, upto, p)]),
        forall|k: int| rseek(s, upto, p) < k < upto ==> !p(#[trigger] s[k]),
    decreases upto,
{
    if upto > 0 && !p(s[upto - 1]) {
        lemma_rseek(s, upto - 1, p);
    }
}

pub proof fn lemma_rseek_is(s: Seq<char>, upto: int, p: spec_fn(char) -> bool, i: int)
    requires
        0 <= upto <= s.len(),
        -1 <= i < upto,
        i >= 0 ==> p(s[i]),
        forall|k: int| i < k < upto ==> !p(#[trigger] s[k]),
    ensures
        rseek(s, upto, p) == i,
    decreases upto,
{
    if upto > 0 && i < upto - 1 {
        lemma_rseek_is(s, upto - 1, p, i);
    }
}

/// First index at or after `from` whose character satisfies `p`, or the
/// character length of `s` when there is none.
pub fn scan(s: &str, from: usize, p: CharPred) -> (r: usize)
    requires
        from <= s@.len(),
    ensures
        r == seek(s@, from as int, predf(p)),
{
    let n = s.unicode_len();
    let mut i = from;
    while i < n
        invariant
            from <= i <= n,
            n == s@.len(),
            forall|k: int| from <= k < i ==> !pred_holds(p, #[trigger] s@[k]),
        decreases n - i,
    {
        let c = s.get_char(i);
        let hit = match p {
            CharPred::Is(ch) => c == ch,
            CharPred::Space => is_space(c),
            CharPred::NotSpace => !is_space(c),
        };
        if hit {
            proof {
                lemma_seek_is(s@, from as int, predf(p), i as int);
            }
            return i;
        }
        i = i + 1;
    }
    proof {
        lemma_seek_is(s@, from as int, predf(p), n as int);
    }
    n
}

/// Last index strictly before `upto` whose character satisfies `p`, or
/// `None` when there is none.
pub fn rscan(s: &str, upto: usize, p: CharPred) -> (r: Option<usize>)
    requires
        upto <= s@.len(),
    ensures
        match r {
            Some(i) => i == rseek(s@, upto as int, predf(p)),
            None => rseek(s@, upto as int, predf(p)) == -1,
        },
{
    let mut i = upto;
    while i > 0
        invariant
            i <= upto <= s@.len(),
            forall|k: int| i <= k < upto ==> !pred_holds(p, #[trigger] s@[k]),
        decreases i,
    {
        let c = s.get_char(i - 1);
        let hit = match p {
            CharPred::Is(ch) => c == ch,
            CharPred::Space => is_space(c),
            CharPred::NotSpace => !is_space(c),
        };
        if hit {
            proof {
                lemma_rseek_is(s@, upto as int, predf(p), i - 1);
            }
            return Some(i - 1);
        }
        i = i - 1;
    }
    proof {
        lemma_rseek_is(s@, upto as int, predf(p), -1);
    }
    None
}

/// `needle` occurs in `hay` starting at index `i`.
pub open spec fn contains_at(hay: Seq<char>, i: int, needle: Seq<char>) -> bool {
    0 <= i && i + needle.len() <= hay.len() && hay.subrange(i, i + needle.len()) == needle
}

/// `needle` occurs somewhere in `hay`.
pub open spec fn contains_seq(hay: Seq<char>, needle: Seq<char>) -> bool {
    exists|i: int| contains_at(hay, i, needle)
}

/// Whether `needle` occurs in `hay` starting at character index `i`.
fn match_at(hay: &str, i: usize, needle: &str) -> (r: bool)
    requires
        i + needle@.len() <= hay@.len(),
    ensures
        r == contains_at(hay@, i as int, needle@),
{
    let hn = hay.unicode_len();
    let nn = needle.unicode_len();
    let mut j: usize = 0;
    while j < nn
        invariant
            0 <= j <= nn,
            hn == hay@.len(),
            nn == needle@.len(),
            i + nn <= hn,
            forall|t: int| 0 <= t < j ==> hay@[i + t] == #[trigger] needle@[t],
        decreases nn - j,
    {
        if hay.get_char(i + j) != needle.get_char(j) {
            proof {
                assert(hay@.subrange(i as int, i + nn)[j as int] == hay@[i + j]);
            }
            return false;
        }
        j = j + 1;
    }
    proof {
        assert(hay@.subrange(i as int, i + nn) =~= needle@);
    }
    true
}

/// Whether `needle` occurs anywhere in `hay`.
pub fn contains_str(hay: &str, needle: &str) -> (r: bool)
    ensures
        r == contains_seq(hay@, needle@),
{
    let hn = hay.unicode_len();
    let nn = needle.unicode_len();
    if nn > hn {
        proof {
            assert(forall|i: int| !contains_at(hay@, i, needle@));
        }
        return false;
    }
    if nn == 0 {
        proof {
            assert(hay@.subrange(0, 0) =~= needle@);
            assert(contains_at(hay@, 0, needle@));
        }
        return true;
    }
    let mut i: usize = 0;
    while i <= hn - nn
        invariant
            1 <= nn <= hn,
            hn == hay@.len(),
            nn == needle@.len(),
            0 <= i <= hn - nn + 1,
            forall|k: int| 0 <= k < i ==> !contains_at(hay@, k, needle@),
        decreases hn - nn + 1 - i,
    {
        if match_at(hay, i, needle) {
            proof {
                assert(contains_at(hay@, i as int, needle@));
            }
            return true;
        }
        i = i + 1;
    }
    proof {
        assert(forall|k: int| k > hn - nn ==> !contains_at(hay@, k, needle@));
    }
    false
}

/// `s` with leading and trailing whitespace removed.
pub open spec fn trim_spec(s: Seq<char>) -> Seq<char> {
    let a = seek(s, 0, predf(CharPred::NotSpace));
    let b = rseek(s, s.len() as int, predf(CharPred::NotSpace));
    if a == s.len() {
        Seq::empty()
    } else {
        s.subrange(a, b + 1)
    }
}

/// `s` with leading and trailing whitespace removed.
pub fn trim_str<'a>(s: &'a str) -> (r: &'a str)
    ensures
        r@ == trim_spec(s@),
{
    let n = s.unicode_len();
    let a = scan(s, 0, CharPred::NotSpace);
    proof {
        lemma_seek(s@, 0, predf(CharPred::NotSpace));
    }
    if a == n {
        let r = s.substring_char(n, n);
        proof {
            assert(r@ =~= trim_spec(s@));
        }
        return r;
    }
    let b = match rscan(s, n, CharPred::NotSpace) {
        Some(b) => b,
        None => {
            proof {
                lemma_rseek(s@, n as int, predf(CharPred::NotSpace));
                assert(pred_holds(CharPred::NotSpace, s@[a as int]));
                assert(false);
            }
            0
        },
    };
    proof {
        lemma_rseek(s@, n as int, predf(CharPred::NotSpace));
        assert(b >= a) by {
            if b < a {
                assert(!pred_holds(CharPred::NotSpace, s@[a as int]));
            }
        }
    }
    s.substring_char(a, b + 1)
}

/// The last whitespace-delimited token of `s`; empty when `s` is all
/// whitespace.
pub open spec fn last_token(s: Seq<char>) -> Seq<char> {
    let e = rseek(s, s.len() as int, predf(CharPred::NotSpace));
    if e < 0 {
        Seq::empty()
    } else {
        let b = rseek(s, e, predf(CharPred::Space));
        s.subrange(b + 1, e + 1)
    }
}

/// The last whitespace-delimited token of `s`.
pub fn last_token_str<'a>(s: &'a str) -> (r: &'a str)
    ensures
        r@ == last_token(s@),
{
    let n = s.unicode_len();
    let e = match rscan(s, n, CharPred::NotSpace) {
        Some(e) => e,
        None => {
            let r = s.substring_char(0, 0);
            proof {
                assert(r@ =~= last_token(s@));
            }
            return r;
        },
    };
    proof {
        lemma_rseek(s@, n as int, predf(CharPred::NotSpace));
        lemma_rseek(s@, e as int, predf(CharPred::Space));
    }
    let b = match rscan(s, e, CharPred::Space) {
        Some(b) => b + 1,
        None => 0,
    };
    s.substring_char(b, e + 1)
}

/// Every character but `'<'` and `'>'`.
pub open spec fn not_angle(c: char) -> bool {
    c != '<' && c != '>'
}

/// `s` with every `'<'` and `'>'` removed.
pub open spec fn strip_angles_spec(s: Seq<char>) -> Seq<char> {
    s.filter(|c: char| not_angle(c))
}

/// Relies on `String::push`: appends the given character to the end of the
/// string.
#[verifier::external_body]
pub(crate) fn push_char(s: &mut String, c: char)
    ensures
        final(s)@ == old(s)@.push(c),
{
    s.push(c);
}

/// `s` with every `'<'` and `'>'` removed.
pub fn strip_angles(s: &str) -> (r: String)
    ensures
        r@ == strip_angles_spec(s@),
{
    let n = s.unicode_len();
    let mut r = String::new();
    let mut i: usize = 0;
    while i < n
        invariant
            i <= n,
            n == s@.len(),
            r@ == strip_angles_spec(s@.take(i as int)),
        decreases n - i,
    {
        let c = s.get_char(i);
        if c != '<' && c != '>' {
            push_char(&mut r, c);
        }
        proof {
            reveal(Seq::filter);
            assert(s@.take(i + 1).drop_last() =~= s@.take(i as int));
            assert(s@.take(i + 1).last() == s@[i as int]);
        }
        i = i + 1;
    }
    proof {
        assert(s@.take(n as int) =~= s@);
    }
    r
}

/// Lexicographic order on character sequences, by code point.
pub open spec fn lex_le(a: Seq<char>, b: Seq<char>) -> bool
    decreases a.len(),
{
    if a.len() == 0 {
        true
    } else if b.len() == 0 {
        false
    } else if (a[0] as u32) == (b[0] as u32) {
        lex_le(a.drop_first(), b.drop_first())
    } else {
        (a[0] as u32) < (b[0] as u32)
    }
}

/// A common prefix does not decide the lexicographic order.
pub proof fn lemma_lex_le_skip(a: Seq<char>, b: Seq<char>, i: int)
    requires
        0 <= i <= a.len(),
        i <= b.len(),
        forall|k: int| 0 <= k < i ==> (a[k] as u32) == (#[trigger] b[k]) as u32,
    ensures
        lex_le(a, b) == lex_le(a.skip(i), b.skip(i)),
    decreases i,
{
    if i == 0 {
        assert(a.skip(0) =~= a);
        assert(b.skip(0) =~= b);
    } else {
        assert((a[0] as u32) == (b[0] as u32));
        lemma_lex_le_skip(a.drop_first(), b.drop_first(), i - 1);
        assert(a.drop_first().skip(i - 1) =~= a.skip(i));
        assert(b.drop_first().skip(i - 1) =~= b.skip(i));
    }
}

/// The lexicographic order is total.
pub proof fn lemma_lex_le_total(a: Seq<char>, b: Seq<char>)
    ensures
        lex_le(a, b) || lex_le(b, a),
    decreases a.len(),
{
    if a.len() > 0 && b.len() > 0 && (a[0] as u32) == (b[0] as u32) {
        lemma_lex_le_total(a.drop_first(), b.drop_first());
    }
}

/// Whether `a` is lexicographically at or before `b`.
pub fn lex_le_str(a: &str, b: &str) -> (r: bool)
    ensures
        r == lex_le(a@, b@),
{
    let na = a.unicode_len();
    let nb = b.unicode_len();
    let mut i: usize = 0;
    while i < na && i < nb
        invariant
            i <= na,
            i <= nb,
            na == a@.len(),
            nb == b@.len(),
            forall|k: int| 0 <= k < i ==> (a@[k] as u32) == (#[trigger] b@[k]) as u32,
        decreases na - i,
    {
        let ca = a.get_char(i) as u32;
        let cb = b.get_char(i) as u32;
        if ca != cb {
            proof {
                lemma_lex_le_skip(a@, b@, i as int);
                assert(a@.skip(i as int)[0] == a@[i as int]);
                assert(b@.skip(i as int)[0] == b@[i as int]);
            }
            return ca < cb;
        }
        i = i + 1;
    }
    proof {
        lemma_lex_le_skip(a@, b@, i as int);
        if i == na {
            assert(a@.skip(i as int).len() == 0);
        } else {
            assert(b@.skip(i as int).len() == 0);
            assert(a@.skip(i as int).len() > 0);
        }
    }
    na <= nb
}

/// Order on optional raw lines: an absent line sorts before any present
/// one, present lines sort lexicographically.
pub open spec fn line_le(a: Option<Seq<char>>, b: Option<Seq<char>>) -> bool {
    match (a, b) {
        (Option::None, _) => true,
        (Option::Some(_), Option::None) => false,
        (Option::Some(x), Option::Some(y)) => lex_le(x, y),
    }
}

/// The order on optional raw lines is total.
pub proof fn lemma_line_le_total(a: Option<Seq<char>>, b: Option<Seq<char>>)
    ensures
        line_le(a, b) || line_le(b, a),
{
    if a is Some && b is Some {
        lemma_lex_le_total(a->0, b->0);
    }
}

/// Whether optional line `a` sorts at or before `b`.
pub fn line_le_opt(a: &Option<String>, b: &Option<String>) -> (r: bool)
    ensures
        r == line_le(a.deep_view(), b.deep_view()),
{
    match (a, b) {
        (Option::None, _) => true,
        (Option::Some(_), Option::None) => false,
        (Option::Some(x), Option::Some(y)) => lex_le_str(x.as_str(), y.as_str()),
    }
}

/// What `str::to_lowercase` returns for a given character sequence.
pub uninterp spec fn lower_of(s: Seq<char>) -> Seq<char>;

/// Relies on `str::to_lowercase`: the result depends on the characters
/// alone.
#[verifier::external_body]
pub(crate) fn to_lowercase(s: &str) -> (r: String)
    ensures
        r@ == lower_of(s@),
{
    s.to_lowercase()
}

/// `s` begins with `p`.
pub open spec fn starts_with_seq(s: Seq<char>, p: Seq<char>) -> bool {
    p.len() <= s.len() && s.subrange(0, p.len() as int) == p
}

/// Whether `s` begins with `p`.
pub fn starts_with_str(s: &str, p: &str) -> (r: bool)
    ensures
        r == starts_with_seq(s@, p@),
{
    let sn = s.unicode_len();
    let pn = p.unicode_len();
    if pn > sn {
        return false;
    }
    match_at(s, 0, p)
}

} // verus!
