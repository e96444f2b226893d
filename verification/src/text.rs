//! Character-level text utilities: substring search, trimming, splitting.
//!
//! Documents are treated as plain text, so every structural question the
//! library asks (does a line carry a directive, where does a token start)
//! reduces to the small set of string operations defined here.  Each
//! executable function is specified against a spec-level counterpart over
//! `Seq<char>`.

use vstd::prelude::*;

verus! {

/// A substring match of `pat` begins at position `i` of `text`.
pub open spec fn match_at(text: Seq<char>, pat: Seq<char>, i: int) -> bool {
    0 <= i && i + pat.len() <= text.len() && text.subrange(i, i + pat.len() as int) == pat
}

/// `text` holds `pat` somewhere as a contiguous substring.
pub open spec fn contains_sub(text: Seq<char>, pat: Seq<char>) -> bool {
    exists|i: int| match_at(text, pat, i)
}

/// `text` ends with `pat`.
pub open spec fn ends_with(text: Seq<char>, pat: Seq<char>) -> bool {
    pat.len() <= text.len() && match_at(text, pat, text.len() - pat.len())
}

/// `text` starts with `pat`.
pub open spec fn starts_with(text: Seq<char>, pat: Seq<char>) -> bool {
    match_at(text, pat, 0)
}

/// Position of the first match of `pat` at or after position `i`, if any.
pub open spec fn spec_find_from(text: Seq<char>, pat: Seq<char>, i: int) -> Option<int>
    decreases text.len() - i,
{
    if i < 0 {
        None
    } else if i + pat.len() > text.len() {
        None
    } else if pat.len() == 0 {
        Some(i)
    } else if text.subrange(i, i + pat.len() as int) == pat {
        Some(i)
    } else {
        spec_find_from(text, pat, i + 1)
    }
}

/// Position of the first match of `pat` in `text`, if any.
pub open spec fn spec_find(text: Seq<char>, pat: Seq<char>) -> Option<int> {
    spec_find_from(text, pat, 0)
}

/// `spec_find_from` returns exactly the first match position at or after `i`.
pub proof fn lemma_find_from(text: Seq<char>, pat: Seq<char>, i: int)
    requires
        0 <= i,
    ensures
        match spec_find_from(text, pat, i) {
            Some(j) => i <= j && match_at(text, pat, j) && (forall|k: int|
                i <= k < j ==> !match_at(text, pat, k)),
            None => forall|k: int| i <= k ==> !match_at(text, pat, k),
        },
    decreases text.len() - i,
{
    if i + pat.len() > text.len() {
        assert forall|k: int| i <= k implies !match_at(text, pat, k) by {
            assert(k + pat.len() >= i + pat.len());
        }
    } else if pat.len() == 0 {
        assert(text.subrange(i, i + pat.len() as int) =~= pat);
    } else if text.subrange(i, i + pat.len() as int) == pat {
    } else {
        lemma_find_from(text, pat, i + 1);
        assert(!match_at(text, pat, i));
    }
}

/// The first match of `pat` in `text`: found if and only if one exists.
pub proof fn lemma_find(text: Seq<char>, pat: Seq<char>)
    ensures
        match spec_find(text, pat) {
            Some(j) => match_at(text, pat, j) && (forall|k: int|
                0 <= k < j ==> !match_at(text, pat, k)),
            None => !contains_sub(text, pat),
        },
{
    lemma_find_from(text, pat, 0);
}

/// Whether `c` is one of the whitespace characters that trimming removes.
pub open spec fn is_space(c: char) -> bool {
    c == ' ' || c == '\t' || c == '\n' || c == '\r' || c == '\u{b}' || c == '\u{c}'
}

/// `s` with leading whitespace removed.
pub open spec fn spec_trim_start(s: Seq<char>) -> Seq<char>
    decreases s.len(),
{
    if s.len() > 0 && is_space(s[0]) {
        spec_trim_start(s.skip(1))
    } else {
        s
    }
}

/// `s` with trailing whitespace removed.
pub open spec fn spec_trim_end(s: Seq<char>) -> Seq<char>
    decreases s.len(),
{
    if s.len() > 0 && is_space(s[s.len() - 1]) {
        spec_trim_end(s.take(s.len() - 1))
    } else {
        s
    }
}

/// `s` with whitespace removed from both ends.
pub open spec fn spec_trim(s: Seq<char>) -> Seq<char> {
    spec_trim_end(spec_trim_start(s))
}

/// `s` with every repetition of the prefix `p` removed from its start.
pub open spec fn spec_strip_prefix(s: Seq<char>, p: Seq<char>) -> Seq<char>
    decreases s.len(),
{
    if p.len() > 0 && starts_with(s, p) {
        spec_strip_prefix(s.skip(p.len() as int), p)
    } else {
        s
    }
}

/// The pieces of `s` cut at each occurrence of `c`, each piece trimmed.
/// The scan stands at position `i`; the piece being built began at `start`.
pub open spec fn spec_split_trim_from(s: Seq<char>, c: char, start: int, i: int) -> Seq<Seq<char>>
    decreases s.len() - i,
{
    if !(0 <= start && start <= i && i <= s.len()) {
        Seq::empty()
    } else if i == s.len() {
        seq![spec_trim(s.subrange(start, i))]
    } else if s[i] == c {
        seq![spec_trim(s.subrange(start, i))] + spec_split_trim_from(s, c, i + 1, i + 1)
    } else {
        spec_split_trim_from(s, c, start, i + 1)
    }
}

/// `s` split at `c`, every piece trimmed: what `split(c)` followed by
/// trimming yields, as one sequence of pieces.
pub open spec fn spec_split_trim(s: Seq<char>, c: char) -> Seq<Seq<char>> {
    spec_split_trim_from(s, c, 0, 0)
}

/// The text strictly between the end of the first occurrence of `pat` and
/// the start of the next occurrence (or the end of `s`): the second piece
/// of a split of `s` at `pat`.
pub open spec fn spec_segment_after(s: Seq<char>, pat: Seq<char>) -> Seq<char> {
    match spec_find(s, pat) {
        None => Seq::empty(),
        Some(j) => {
            let rest = s.skip(j + pat.len() as int);
            match spec_find(rest, pat) {
                None => rest,
                Some(k) => rest.take(k),
            }
        },
    }
}

/// A match inside `text` is still a match after anything is appended.
pub proof fn lemma_match_at_append(text: Seq<char>, pat: Seq<char>, i: int, tail: Seq<char>)
    requires
        match_at(text, pat, i),
    ensures
        match_at(text + tail, pat, i),
{
    assert((text + tail).subrange(i, i + pat.len() as int) =~= text.subrange(
        i,
        i + pat.len() as int,
    ));
}

/// Skipping `a` characters and then `b` more skips `a + b`.
pub proof fn lemma_skip_skip(s: Seq<char>, a: int, b: int)
    requires
        0 <= a,
        0 <= b,
        a + b <= s.len(),
    ensures
        s.skip(a).skip(b) == s.skip(a + b),
{
    assert(s.skip(a).skip(b) =~= s.skip(a + b));
}

/// Trimming the start removes a prefix, and every removed character is
/// whitespace.
pub proof fn lemma_trim_start_removes(s: Seq<char>)
    ensures
        exists|d: int|
            {
                &&& 0 <= d <= s.len()
                &&& #[trigger] s.skip(d) == spec_trim_start(s)
                &&& forall|q: int| 0 <= q < d ==> is_space(s[q])
            },
    decreases s.len(),
{
    if s.len() > 0 && is_space(s[0]) {
        lemma_trim_start_removes(s.skip(1));
        let d2 = choose|d2: int|
            {
                &&& 0 <= d2 <= s.skip(1).len()
                &&& #[trigger] s.skip(1).skip(d2) == spec_trim_start(s.skip(1))
                &&& forall|q: int| 0 <= q < d2 ==> is_space(s.skip(1)[q])
            };
        lemma_skip_skip(s, 1, d2);
        assert(s.skip(1 + d2) == spec_trim_start(s));
        assert forall|q: int| 0 <= q < 1 + d2 implies is_space(s[q]) by {
            if q >= 1 {
                assert(s.skip(1)[q - 1] == s[q]);
            }
        }
    } else {
        assert(s.skip(0) =~= s);
        assert(s.skip(0) == spec_trim_start(s));
    }
}

/// Removing leading whitespace may be done in two steps: when the first
/// `d` characters are whitespace, trimming the start of `s` trims the
/// start of `s` without them.
pub proof fn lemma_trim_start_skip_spaces(s: Seq<char>, d: int)
    requires
        0 <= d <= s.len(),
        forall|q: int| 0 <= q < d ==> is_space(s[q]),
    ensures
        spec_trim_start(s) == spec_trim_start(s.skip(d)),
    decreases d,
{
    if d > 0 {
        assert(s.len() > 0 && is_space(s[0]));
        assert(s.skip(1).skip(d - 1) =~= s.skip(d));
        assert(forall|q: int| 0 <= q < d - 1 ==> is_space(s.skip(1)[q]));
        lemma_trim_start_skip_spaces(s.skip(1), d - 1);
    } else {
        assert(s.skip(0) =~= s);
    }
}

/// Stripping a repeated prefix removes a prefix, and when the pattern
/// avoids the character `c`, so does every removed character.
pub proof fn lemma_strip_prefix_removes(s: Seq<char>, p: Seq<char>, c: char)
    requires
        forall|q: int| 0 <= q < p.len() ==> p[q] != c,
    ensures
        exists|d: int|
            {
                &&& 0 <= d <= s.len()
                &&& #[trigger] s.skip(d) == spec_strip_prefix(s, p)
                &&& forall|q: int| 0 <= q < d ==> s[q] != c
            },
    decreases s.len(),
{
    if p.len() > 0 && starts_with(s, p) {
        lemma_strip_prefix_removes(s.skip(p.len() as int), p, c);
        let d2 = choose|d2: int|
            {
                &&& 0 <= d2 <= s.skip(p.len() as int).len()
                &&& #[trigger] s.skip(p.len() as int).skip(d2) == spec_strip_prefix(
                    s.skip(p.len() as int),
                    p,
                )
                &&& forall|q: int| 0 <= q < d2 ==> s.skip(p.len() as int)[q] != c
            };
        lemma_skip_skip(s, p.len() as int, d2);
        assert(s.skip(p.len() + d2) == spec_strip_prefix(s, p));
        assert forall|q: int| 0 <= q < p.len() + d2 implies s[q] != c by {
            if q < p.len() {
                assert(s.subrange(0, p.len() as int)[q] == s[q]);
            } else {
                assert(s.skip(p.len() as int)[q - p.len()] == s[q]);
            }
        }
    } else {
        assert(s.skip(0) =~= s);
        assert(s.skip(0) == spec_strip_prefix(s, p));
    }
}

/// A scan that meets no further cut character yields the single piece
/// from `start` to the end.
pub proof fn lemma_split_trim_whole(w: Seq<char>, c: char, start: int, i: int)
    requires
        0 <= start <= i <= w.len(),
        forall|q: int| i <= q < w.len() ==> w[q] != c,
    ensures
        spec_split_trim_from(w, c, start, i) == seq![
            spec_trim(w.subrange(start, w.len() as int)),
        ],
    decreases w.len() - i,
{
    if i == w.len() {
    } else {
        lemma_split_trim_whole(w, c, start, i + 1);
    }
}

/// When position `p` holds the last cut character of `w`, every scan
/// state at or before `p` yields the trimmed text after `p` as a piece.
pub proof fn lemma_split_trim_tail(w: Seq<char>, c: char, p: int, start: int, i: int)
    requires
        0 <= start <= i <= p < w.len(),
        w[p] == c,
        forall|q: int| p < q < w.len() ==> w[q] != c,
    ensures
        spec_split_trim_from(w, c, start, i).contains(
            spec_trim(w.subrange(p + 1, w.len() as int)),
        ),
    decreases p - i,
{
    let piece = spec_trim(w.subrange(p + 1, w.len() as int));
    if i == p {
        lemma_split_trim_whole(w, c, p + 1, p + 1);
        let r = spec_split_trim_from(w, c, start, i);
        assert(r[1] == piece);
        assert(r.contains(piece));
    } else if w[i] == c {
        lemma_split_trim_tail(w, c, p, i + 1, i + 1);
        let t = spec_split_trim_from(w, c, i + 1, i + 1);
        let idx = choose|idx: int| 0 <= idx < t.len() && t[idx] == piece;
        let r = spec_split_trim_from(w, c, start, i);
        assert(r[1 + idx] == piece);
        assert(r.contains(piece));
    } else {
        lemma_split_trim_tail(w, c, p, start, i + 1);
    }
}

/// Trimming a single leading space from before a keyword that neither
/// begins nor ends with whitespace yields the keyword itself.
pub proof fn lemma_trim_space_keyword(u: Seq<char>, k: Seq<char>)
    requires
        u.len() == k.len() + 1,
        is_space(u[0]),
        u.skip(1) == k,
        k.len() > 0,
        !is_space(k[0]),
        !is_space(k[k.len() - 1]),
    ensures
        spec_trim(u) == k,
{
    assert(spec_trim_start(u) == spec_trim_start(u.skip(1)));
    assert(spec_trim_start(k) == k);
    assert(spec_trim_end(k) == k);
}

/// Strict lexicographic order on character sequences, by code point.
pub open spec fn seq_lt(a: Seq<char>, b: Seq<char>) -> bool
    decreases a.len(),
{
    if b.len() == 0 {
        false
    } else if a.len() == 0 {
        true
    } else if a[0] != b[0] {
        (a[0] as int) < (b[0] as int)
    } else {
        seq_lt(a.skip(1), b.skip(1))
    }
}

/// Exactly one of `a < b`, `a == b`, `b < a` holds.
pub proof fn lemma_seq_lt_trichotomy(a: Seq<char>, b: Seq<char>)
    ensures
        seq_lt(a, b) || seq_lt(b, a) || a == b,
        !(seq_lt(a, b) && seq_lt(b, a)),
        seq_lt(a, b) ==> a != b,
    decreases a.len() + b.len(),
{
    if a.len() == 0 && b.len() == 0 {
        assert(a =~= b);
    } else if a.len() > 0 && b.len() > 0 && a[0] == b[0] {
        lemma_seq_lt_trichotomy(a.skip(1), b.skip(1));
        if a.skip(1) == b.skip(1) {
            assert(a =~= b) by {
                assert forall|i: int| 0 <= i < a.len() implies a[i] == b[i] by {
                    if i > 0 {
                        assert(a.skip(1)[i - 1] == a[i]);
                        assert(b.skip(1)[i - 1] == b[i]);
                    }
                }
            }
        }
        if a == b {
            assert(a.skip(1) == b.skip(1));
        }
    } else if a.len() > 0 && b.len() > 0 {
        assert((a[0] as int) != (b[0] as int)) by {
            if (a[0] as int) == (b[0] as int) {
                assert(a[0] == b[0]);
            }
        }
    }
}

/// The order on character sequences is transitive.
pub proof fn lemma_seq_lt_trans(a: Seq<char>, b: Seq<char>, c: Seq<char>)
    requires
        seq_lt(a, b),
        seq_lt(b, c),
    ensures
        seq_lt(a, c),
    decreases a.len() + b.len() + c.len(),
{
    if a.len() == 0 {
    } else {
        assert(b.len() > 0);
        assert(c.len() > 0);
        if a[0] == b[0] && b[0] == c[0] {
            lemma_seq_lt_trans(a.skip(1), b.skip(1), c.skip(1));
        }
    }
}

/// Compare two strings in the lexicographic order on their characters.
#[verifier::loop_isolation(false)]
pub fn str_lt(a: &str, b: &str) -> (r: bool)
    ensures
        r == seq_lt(a@, b@),
{
    let n = a.unicode_len();
    let m = b.unicode_len();
    proof {
        assert(a@.skip(0) =~= a@);
        assert(b@.skip(0) =~= b@);
    }
    let mut i: usize = 0;
    while i < n && i < m
        invariant
            0 <= i <= n,
            0 <= i <= m,
            seq_lt(a@, b@) == seq_lt(a@.skip(i as int), b@.skip(i as int)),
        decreases n - i,
    {
        let ca = a.get_char(i);
        let cb = b.get_char(i);
        proof {
            assert(a@.skip(i as int)[0] == a@[i as int]);
            assert(b@.skip(i as int)[0] == b@[i as int]);
            assert(a@.skip(i as int).skip(1) =~= a@.skip(i + 1));
            assert(b@.skip(i as int).skip(1) =~= b@.skip(i + 1));
        }
        if ca != cb {
            return (ca as u32) < (cb as u32);
        }
        i += 1;
    }
    proof {
        if i == n {
            assert(a@.skip(i as int).len() == 0);
        }
        if i == m {
            assert(b@.skip(i as int).len() == 0);
        }
    }
    n < m
}

/// Whether a match of `pat` begins at position `i` of `text`.
#[verifier::loop_isolation(false)]
pub fn match_here(text: &str, pat: &str, i: usize) -> (r: bool)
    requires
        i + pat@.len() <= text@.len(),
    ensures
        r == match_at(text@, pat@, i as int),
{
    let n = text.unicode_len();
    let m = pat.unicode_len();
    let mut j: usize = 0;
    while j < m
        invariant
            0 <= j <= m,
            forall|k: int| 0 <= k < j ==> text@[i + k] == pat@[k],
        decreases m - j,
    {
        if text.get_char(i + j) != pat.get_char(j) {
            assert(text@.subrange(i as int, i + m) != pat@) by {
                assert(text@.subrange(i as int, i + m)[j as int] == text@[i + j]);
            }
            return false;
        }
        j += 1;
    }
    assert(text@.subrange(i as int, i + m) =~= pat@);
    true
}

/// Position of the first occurrence of `pat` in `text`, if any.
#[verifier::loop_isolation(false)]
pub fn find(text: &str, pat: &str) -> (r: Option<usize>)
    ensures
        match r {
            Some(i) => spec_find(text@, pat@) == Some(i as int),
            None => spec_find(text@, pat@) is None,
        },
{
    let n = text.unicode_len();
    let m = pat.unicode_len();
    if m > n {
        return None;
    }
    if m == 0 {
        return Some(0);
    }
    let mut i: usize = 0;
    while i <= n - m
        invariant
            0 <= i <= n - m + 1,
            0 < m <= n,
            spec_find(text@, pat@) == spec_find_from(text@, pat@, i as int),
        decreases n - i,
    {
        if match_here(text, pat, i) {
            return Some(i);
        }
        i += 1;
    }
    None
}

/// Whether `text` holds `pat` as a substring.
pub fn contains(text: &str, pat: &str) -> (r: bool)
    ensures
        r == contains_sub(text@, pat@),
{
    let r = find(text, pat);
    proof {
        lemma_find(text@, pat@);
    }
    r.is_some()
}

/// Whether `text` ends with `pat`.
pub fn str_ends_with(text: &str, pat: &str) -> (r: bool)
    ensures
        r == ends_with(text@, pat@),
{
    let n = text.unicode_len();
    let m = pat.unicode_len();
    if m > n {
        return false;
    }
    match_here(text, pat, n - m)
}

/// Whether `text` starts with `pat`.
pub fn str_starts_with(text: &str, pat: &str) -> (r: bool)
    ensures
        r == starts_with(text@, pat@),
{
    let n = text.unicode_len();
    let m = pat.unicode_len();
    if m > n {
        return false;
    }
    match_here(text, pat, 0)
}

/// Whether two string slices hold the same characters.
pub fn str_eq(a: &str, b: &str) -> (r: bool)
    ensures
        r == (a@ == b@),
{
    let n = a.unicode_len();
    let m = b.unicode_len();
    if n != m {
        return false;
    }
    let r = match_here(a, b, 0);
    proof {
        if r {
            assert(a@.subrange(0, a@.len() as int) =~= a@);
        } else {
            assert(a@.subrange(0, a@.len() as int) =~= a@);
        }
    }
    r
}

/// Whether a character is trimmed whitespace.
pub fn space(c: char) -> (r: bool)
    ensures
        r == is_space(c),
{
    c == ' ' || c == '\t' || c == '\n' || c == '\r' || c == '\u{b}' || c == '\u{c}'
}

/// `s` with whitespace removed from both ends.
#[verifier::loop_isolation(false)]
pub fn trim<'a>(s: &'a str) -> (r: &'a str)
    ensures
        r@ == spec_trim(s@),
{
    let n = s.unicode_len();
    proof {
        assert(s@.skip(0) =~= s@);
    }
    let mut i: usize = 0;
    while i < n && space(s.get_char(i))
        invariant
            0 <= i <= n,
            spec_trim_start(s@) == spec_trim_start(s@.skip(i as int)),
        decreases n - i,
    {
        proof {
            assert(s@.skip(i as int).skip(1) =~= s@.skip(i + 1));
        }
        i += 1;
    }
    proof {
        assert(spec_trim_start(s@) == s@.skip(i as int));
    }
    let ghost t = s@.skip(i as int);
    proof {
        assert(s@.subrange(i as int, n as int) =~= t);
    }
    let mut j: usize = n;
    while j > i && space(s.get_char(j - 1))
        invariant
            i <= j <= n,
            spec_trim_end(t) == spec_trim_end(s@.subrange(i as int, j as int)),
        decreases j,
    {
        proof {
            assert(s@.subrange(i as int, j as int).take(j - i - 1) =~= s@.subrange(
                i as int,
                j - 1,
            ));
        }
        j -= 1;
    }
    let r = s.substring_char(i, j);
    proof {
        if j == i {
            assert(s@.subrange(i as int, j as int).len() == 0);
        }
        assert(spec_trim_end(s@.subrange(i as int, j as int)) == s@.subrange(i as int, j as int));
    }
    r
}

/// `s` with leading whitespace removed.
#[verifier::loop_isolation(false)]
pub fn trim_start<'a>(s: &'a str) -> (r: &'a str)
    ensures
        r@ == spec_trim_start(s@),
{
    let n = s.unicode_len();
    proof {
        assert(s@.skip(0) =~= s@);
    }
    let mut i: usize = 0;
    while i < n && space(s.get_char(i))
        invariant
            0 <= i <= n,
            spec_trim_start(s@) == spec_trim_start(s@.skip(i as int)),
        decreases n - i,
    {
        proof {
            assert(s@.skip(i as int).skip(1) =~= s@.skip(i + 1));
        }
        i += 1;
    }
    proof {
        assert(spec_trim_start(s@) == s@.skip(i as int));
        assert(s@.subrange(i as int, n as int) =~= s@.skip(i as int));
    }
    s.substring_char(i, n)
}

/// `s` with every repetition of the prefix `p` removed from its start.
#[verifier::loop_isolation(false)]
pub fn strip_prefix_all<'a>(s: &'a str, p: &str) -> (r: &'a str)
    ensures
        r@ == spec_strip_prefix(s@, p@),
{
    let m = p.unicode_len();
    if m == 0 {
        return s;
    }
    let mut cur: &str = s;
    loop
        invariant
            spec_strip_prefix(s@, p@) == spec_strip_prefix(cur@, p@),
        decreases cur@.len(),
    {
        if str_starts_with(cur, p) {
            cur = cur.substring_char(m, cur.unicode_len());
        } else {
            return cur;
        }
    }
}

/// `s` split at `c`, every piece trimmed and copied out.
#[verifier::loop_isolation(false)]
pub fn split_trim(s: &str, c: char) -> (out: Vec<String>)
    ensures
        out.deep_view() == spec_split_trim(s@, c),
{
    let n = s.unicode_len();
    let mut out: Vec<String> = Vec::new();
    let mut start: usize = 0;
    let mut i: usize = 0;
    while i < n
        invariant
            0 <= start <= i <= n,
            out.deep_view() + spec_split_trim_from(s@, c, start as int, i as int)
                == spec_split_trim(s@, c),
        decreases n - i,
    {
        let ch = s.get_char(i);
        if ch == c {
            let piece = trim(s.substring_char(start, i));
            let ghost old_out = out.deep_view();
            out.push(piece.to_owned());
            proof {
                assert(out.deep_view() =~= old_out.push(spec_trim(s@.subrange(
                    start as int,
                    i as int,
                ))));
                assert(out.deep_view() + spec_split_trim_from(s@, c, i + 1, i + 1)
                    =~= old_out + spec_split_trim_from(s@, c, start as int, i as int));
            }
            start = i + 1;
        }
        i += 1;
    }
    let piece = trim(s.substring_char(start, n));
    let ghost old_out = out.deep_view();
    out.push(piece.to_owned());
    proof {
        assert(out.deep_view() =~= old_out.push(spec_trim(s@.subrange(start as int, n as int))));
        assert(out.deep_view() =~= spec_split_trim(s@, c));
    }
    out
}

/// The text after the first occurrence of `pat` in `s`, up to the next
/// occurrence or the end.
#[verifier::loop_isolation(false)]
pub fn segment_after<'a>(s: &'a str, pat: &str) -> (r: &'a str)
    requires
        contains_sub(s@, pat@),
    ensures
        r@ == spec_segment_after(s@, pat@),
{
    proof {
        lemma_find(s@, pat@);
    }
    let n = s.unicode_len();
    let m = pat.unicode_len();
    let j = match find(s, pat) {
        Some(j) => j,
        None => {
            assert(false);
            0
        },
    };
    assert(j + m <= n);
    let rest = s.substring_char(j + m, n);
    match find(rest, pat) {
        None => rest,
        Some(k) => {
            proof {
                lemma_find(rest@, pat@);
                assert(rest@.take(k as int) =~= rest@.subrange(0, k as int));
            }
            rest.substring_char(0, k)
        },
    }
}

} // verus!
