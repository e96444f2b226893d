//! The metadata mutation engine: pure content-to-content edits that add,
//! extend or remove the two managed annotation blocks.
//!
//! Every operation takes a document's lines and returns new lines; writing
//! the result back is the caller's business.  Each operation is idempotent
//! and keeps at most one block of each kind in a document.

use vstd::prelude::*;
use crate::text::{
    contains_sub, match_at, ends_with, starts_with, is_space, spec_trim, spec_trim_start,
    spec_trim_end, spec_strip_prefix, contains, str_ends_with,
};
use crate::meta::{
    first_line_containing, some_line_contains, lemma_first_line, lemma_first_line_at,
    spec_parse_kw_line, has_values_marker, find_line, lines_contain, contains_str,
    get_meta_keywords,
};
use crate::types::{Language, LangSet};

verus! {

/// The lines of a fresh, empty keyword block.
pub open spec fn spec_keyword_block() -> Seq<Seq<char>> {
    seq![".. meta::"@, "   :keywords:"@, ""@]
}

/// A fresh keyword block is prepended unless some line already carries
/// the `:keywords:` marker.
pub open spec fn spec_insert_keyword_block(ls: Seq<Seq<char>>) -> Seq<Seq<char>> {
    if some_line_contains(ls, ":keywords:"@) {
        ls
    } else {
        spec_keyword_block() + ls
    }
}

/// The keyword line after appending `k`: a separating comma is added
/// unless the line ends with the bare marker, in which case the list was
/// empty and only a space is needed.
pub open spec fn spec_appended_kw_line(l: Seq<char>, k: Seq<char>) -> Seq<char> {
    if ends_with(l, ":keywords:"@) {
        l + " "@ + k
    } else {
        l + ", "@ + k
    }
}

/// Append `k` to the keyword list: the first line carrying the
/// `:keywords:` marker is extended, unless `k` already stands in its
/// list; content without a keyword line is returned unchanged.
pub open spec fn spec_append_keyword(ls: Seq<Seq<char>>, k: Seq<char>) -> Seq<Seq<char>> {
    match first_line_containing(ls, ":keywords:"@) {
        None => ls,
        Some(i) => if spec_parse_kw_line(ls[i]).contains(k) {
            ls
        } else {
            ls.update(i, spec_appended_kw_line(ls[i], k))
        },
    }
}

/// The three structurally significant lines of a facet block begin at
/// line `i`: a header line holding `.. facet::`, a name line holding
/// `:name: programming_language`, and a values line with a `:values:`
/// marker after its first character.
pub open spec fn facet_block_at(ls: Seq<Seq<char>>, i: int) -> bool {
    &&& 0 <= i
    &&& i + 2 < ls.len()
    &&& contains_sub(ls[i], ".. facet::"@)
    &&& contains_sub(ls[i + 1], ":name: programming_language"@)
    &&& has_values_marker(ls[i + 2])
}

/// The document holds a facet block somewhere.
pub open spec fn has_facet_block(ls: Seq<Seq<char>>) -> bool {
    exists|i: int| facet_block_at(ls, i)
}

/// Index of the first facet block at or after line `i`, if any.
pub open spec fn first_facet_block_from(ls: Seq<Seq<char>>, i: int) -> Option<int>
    decreases ls.len() - i,
{
    if i < 0 || i >= ls.len() {
        None
    } else if facet_block_at(ls, i) {
        Some(i)
    } else {
        first_facet_block_from(ls, i + 1)
    }
}

/// Index of the first facet block of the document, if any.
pub open spec fn first_facet_block(ls: Seq<Seq<char>>) -> Option<int> {
    first_facet_block_from(ls, 0)
}

/// `first_facet_block_from` returns exactly the first block at or after
/// `i`.
pub proof fn lemma_first_facet_block_from(ls: Seq<Seq<char>>, i: int)
    requires
        0 <= i,
    ensures
        match first_facet_block_from(ls, i) {
            Some(j) => i <= j < ls.len() && facet_block_at(ls, j) && (forall|k: int|
                i <= k < j ==> !facet_block_at(ls, k)),
            None => forall|k: int| i <= k ==> !facet_block_at(ls, k),
        },
    decreases ls.len() - i,
{
    if i >= ls.len() {
        assert forall|k: int| i <= k implies !facet_block_at(ls, k) by {
            assert(k + 2 >= ls.len());
        }
    } else if facet_block_at(ls, i) {
    } else {
        lemma_first_facet_block_from(ls, i + 1);
    }
}

/// The first facet block is found if and only if the document has one.
pub proof fn lemma_first_facet_block(ls: Seq<Seq<char>>)
    ensures
        match first_facet_block(ls) {
            Some(j) => 0 <= j < ls.len() && facet_block_at(ls, j) && (forall|k: int|
                0 <= k < j ==> !facet_block_at(ls, k)),
            None => !has_facet_block(ls),
        },
{
    lemma_first_facet_block_from(ls, 0);
}

/// The canonical renderings of the languages, joined by `", "`.
pub open spec fn spec_join_langs(langs: Seq<Language>) -> Seq<char>
    decreases langs.len(),
{
    if langs.len() == 0 {
        Seq::empty()
    } else if langs.len() == 1 {
        langs[0].spec_render()
    } else {
        spec_join_langs(langs.drop_last()) + ", "@ + langs.last().spec_render()
    }
}

/// The values line of a facet block for these languages.
pub open spec fn spec_facet_values_line(langs: Seq<Language>) -> Seq<char> {
    "   :values: "@ + spec_join_langs(langs)
}

/// The four lines of a fresh facet block for these languages.
pub open spec fn spec_facet_block(langs: Seq<Language>) -> Seq<Seq<char>> {
    seq![
        ".. facet::"@,
        "   :name: programming_language"@,
        spec_facet_values_line(langs),
        ""@,
    ]
}

/// A fresh facet block is prepended unless the document already has one:
/// inserting over an existing block is a skip, never a duplicate.
pub open spec fn spec_insert_facet_block(ls: Seq<Seq<char>>, langs: Seq<Language>) -> Seq<
    Seq<char>,
> {
    if has_facet_block(ls) {
        ls
    } else {
        spec_facet_block(langs) + ls
    }
}

/// Index of the first non-empty line at or after `j`.
pub open spec fn skip_empty_from(ls: Seq<Seq<char>>, j: int) -> int
    decreases ls.len() - j,
{
    if 0 <= j < ls.len() && ls[j].len() == 0 {
        skip_empty_from(ls, j + 1)
    } else {
        j
    }
}

/// Remove the first facet block: its three structural lines and the run
/// of empty lines that follows them; content without a block is returned
/// unchanged.
pub open spec fn spec_remove_facet_block(ls: Seq<Seq<char>>) -> Seq<Seq<char>> {
    match first_facet_block(ls) {
        None => ls,
        Some(i) => ls.take(i) + ls.skip(skip_empty_from(ls, i + 3)),
    }
}

/// A copy of the lines.
#[verifier::loop_isolation(false)]
pub fn copy_lines(src: &Vec<String>) -> (r: Vec<String>)
    ensures
        r@ == src@,
        r.deep_view() == src.deep_view(),
{
    let mut r: Vec<String> = Vec::new();
    let mut i: usize = 0;
    while i < src.len()
        invariant
            0 <= i <= src.len(),
            r@ == src@.take(i as int),
        decreases src.len() - i,
    {
        r.push(src[i].clone());
        proof {
            assert(r@ =~= src@.take(i + 1));
        }
        i += 1;
    }
    proof {
        assert(src@.take(src@.len() as int) =~= src@);
    }
    r
}

/// Append a copy of every line of `src` to `dst`.
#[verifier::loop_isolation(false)]
fn append_clones(dst: &mut Vec<String>, src: &Vec<String>, from: usize)
    requires
        from <= src.len(),
    ensures
        final(dst)@ == old(dst)@ + src@.skip(from as int),
{
    let mut i: usize = from;
    while i < src.len()
        invariant
            from <= i <= src.len(),
            dst@ == old(dst)@ + src@.subrange(from as int, i as int),
        decreases src.len() - i,
    {
        dst.push(src[i].clone());
        proof {
            assert(dst@ =~= old(dst)@ + src@.subrange(from as int, i + 1));
        }
        i += 1;
    }
    proof {
        assert(src@.subrange(from as int, src@.len() as int) =~= src@.skip(from as int));
    }
}

/// Prepend a fresh keyword block unless the document already has a
/// keyword line.
pub fn insert_keyword_block(content: &Vec<String>) -> (r: Vec<String>)
    ensures
        r.deep_view() == spec_insert_keyword_block(content.deep_view()),
{
    if lines_contain(content, ":keywords:") {
        return copy_lines(content);
    }
    let mut r: Vec<String> = Vec::new();
    r.push(".. meta::".to_owned());
    r.push("   :keywords:".to_owned());
    r.push("".to_owned());
    append_clones(&mut r, content, 0);
    proof {
        assert(content@.skip(0) =~= content@);
        assert(r.deep_view() =~= spec_keyword_block() + content.deep_view());
    }
    r
}

/// Append `keyword` to the list on the first keyword line, adding a
/// separating comma unless the list is empty; a keyword already present,
/// or a document without a keyword line, leaves the content unchanged.
pub fn append_keyword(content: &Vec<String>, keyword: &str) -> (r: Vec<String>)
    ensures
        r.deep_view() == spec_append_keyword(content.deep_view(), keyword@),
{
    let ghost ld = content.deep_view();
    let i = match find_line(content, ":keywords:") {
        None => {
            return copy_lines(content);
        },
        Some(i) => i,
    };
    proof {
        lemma_first_line(ld, ":keywords:"@);
    }
    let kws = match get_meta_keywords(content) {
        Some(v) => v,
        None => {
            assert(false);
            return copy_lines(content);
        },
    };
    if contains_str(&kws, keyword) {
        return copy_lines(content);
    }
    let line = &content[i];
    proof {
        assert(ld[i as int] == content@[i as int]@);
    }
    let sep: &str = if str_ends_with(line.as_str(), ":keywords:") {
        " "
    } else {
        ", "
    };
    let nl = line.clone().concat(sep).concat(keyword);
    let mut r: Vec<String> = Vec::new();
    let mut j: usize = 0;
    #[verifier::loop_isolation(false)]
    while j < content.len()
        invariant
            0 <= j <= content.len(),
            i < content.len(),
            nl@ == spec_appended_kw_line(ld[i as int], keyword@),
            r@.len() == j,
            forall|q: int| 0 <= q < j && q != i ==> r@[q] == content@[q],
            j > i ==> r@[i as int]@ == nl@,
        decreases content.len() - j,
    {
        if j == i {
            r.push(nl.clone());
        } else {
            r.push(content[j].clone());
        }
        j += 1;
    }
    proof {
        assert(r.deep_view() =~= ld.update(i as int, spec_appended_kw_line(ld[i as int], keyword@)));
    }
    r
}

/// Index of the first facet block of the document, searched executably.
#[verifier::loop_isolation(false)]
pub fn find_facet_block(lines: &Vec<String>) -> (r: Option<usize>)
    ensures
        match r {
            Some(i) => first_facet_block(lines.deep_view()) == Some(i as int),
            None => first_facet_block(lines.deep_view()) is None,
        },
{
    let ghost ld = lines.deep_view();
    let n = lines.len();
    let mut i: usize = 0;
    while i < n
        invariant
            0 <= i <= n,
            ld.len() == n,
            first_facet_block(ld) == first_facet_block_from(ld, i as int),
        decreases n - i,
    {
        proof {
            assert(ld[i as int] == lines@[i as int]@);
            if i + 2 < n {
                assert(ld[i + 1] == lines@[i + 1]@);
                assert(ld[i + 2] == lines@[i + 2]@);
            }
        }
        if n - i > 2 {
            let hit = contains(lines[i].as_str(), ".. facet::") && contains(
                lines[i + 1].as_str(),
                ":name: programming_language",
            ) && crate::meta::values_marker(lines[i + 2].as_str());
            if hit {
                return Some(i);
            }
        }
        i += 1;
    }
    None
}

/// The values line of a fresh facet block for this language set.
#[verifier::loop_isolation(false)]
fn render_values_line(langs: &LangSet) -> (r: String)
    ensures
        r@ == spec_facet_values_line(langs@),
{
    let mut acc: String = "   :values: ".to_owned();
    let n = langs.len();
    let mut i: usize = 0;
    while i < n
        invariant
            0 <= i <= n,
            n == langs@.len(),
            acc@ == "   :values: "@ + spec_join_langs(langs@.take(i as int)),
        decreases n - i,
    {
        if i > 0 {
            acc.append(", ");
        }
        let rendered = langs.get(i).render();
        acc.append(rendered.as_str());
        proof {
            if i == 0 {
                assert(spec_join_langs(langs@.take(1)) == langs@.take(1)[0].spec_render());
                assert(langs@.take(1)[0] == langs@[0]);
                assert(spec_join_langs(Seq::<Language>::empty()) == Seq::<char>::empty());
                assert(acc@ =~= "   :values: "@ + spec_join_langs(langs@.take(1)));
            } else {
                assert(langs@.take(i + 1).drop_last() =~= langs@.take(i as int));
                assert(langs@.take(i + 1).last() == langs@[i as int]);
                assert(acc@ =~= "   :values: "@ + spec_join_langs(langs@.take(i + 1)));
            }
        }
        i += 1;
    }
    proof {
        assert(langs@.take(langs@.len() as int) =~= langs@);
    }
    acc
}

/// Prepend a fresh facet block naming `langs` in canonical order, unless
/// the document already has a facet block: then the content is returned
/// unchanged, never given a second block.
pub fn insert_facet_block(content: &Vec<String>, langs: &LangSet) -> (r: Vec<String>)
    ensures
        r.deep_view() == spec_insert_facet_block(content.deep_view(), langs@),
{
    let has = find_facet_block(content);
    proof {
        lemma_first_facet_block(content.deep_view());
    }
    if has.is_some() {
        return copy_lines(content);
    }
    let mut r: Vec<String> = Vec::new();
    r.push(".. facet::".to_owned());
    r.push("   :name: programming_language".to_owned());
    r.push(render_values_line(langs));
    r.push("".to_owned());
    append_clones(&mut r, content, 0);
    proof {
        assert(content@.skip(0) =~= content@);
        assert(r.deep_view() =~= spec_facet_block(langs@) + content.deep_view());
    }
    r
}

/// Remove the first facet block, with the run of empty lines after it;
/// a document without a block is returned unchanged.
#[verifier::loop_isolation(false)]
pub fn remove_facet_block(content: &Vec<String>) -> (r: Vec<String>)
    ensures
        r.deep_view() == spec_remove_facet_block(content.deep_view()),
{
    let ghost ld = content.deep_view();
    let i = match find_facet_block(content) {
        None => {
            return copy_lines(content);
        },
        Some(i) => i,
    };
    proof {
        lemma_first_facet_block(ld);
    }
    let n = content.len();
    let mut r: Vec<String> = Vec::new();
    let mut q: usize = 0;
    while q < i
        invariant
            0 <= q <= i <= n,
            n == content@.len(),
            r@ == content@.take(q as int),
        decreases i - q,
    {
        r.push(content[q].clone());
        proof {
            assert(r@ =~= content@.take(q + 1));
        }
        q += 1;
    }
    let mut j: usize = i + 3;
    if j > n {
        j = n;
    }
    proof {
        if i + 3 > n {
            assert(skip_empty_from(ld, i + 3) == i + 3);
            assert(ld.skip(i + 3) =~= ld.skip(n as int));
            assert(ld.skip(n as int) =~= Seq::<Seq<char>>::empty());
            assert(ld.skip(skip_empty_from(ld, i + 3)) =~= ld.skip(j as int));
            assert(skip_empty_from(ld, j as int) == j);
        }
    }
    let ghost j0 = j as int;
    while j < n && content[j].as_str().is_empty()
        invariant
            0 <= j <= n,
            n == content@.len(),
            ld.len() == n,
            skip_empty_from(ld, j0) == skip_empty_from(ld, j as int),
        decreases n - j,
    {
        proof {
            assert(ld[j as int] == content@[j as int]@);
        }
        j += 1;
    }
    proof {
        if j < n {
            assert(ld[j as int] == content@[j as int]@);
        }
        assert(skip_empty_from(ld, j as int) == j);
    }
    append_clones(&mut r, content, j);
    proof {
        if i + 3 <= n {
            assert(skip_empty_from(ld, i + 3) == j);
        }
        assert(r.deep_view() =~= ld.take(i as int) + ld.skip(skip_empty_from(ld, i + 3)));
    }
    r
}

/// Give the document `keyword`: a document with no keyword block first
/// receives a fresh one, then the keyword is appended to the block's
/// list unless already present.  Fragment documents are never edited.
pub fn tag_with_keyword(path: &str, content: &Vec<String>, keyword: &str) -> (r: Vec<String>)
    ensures
        ({
            let ld = content.deep_view();
            if contains_sub(path@, "/includes/"@) {
                r.deep_view() == ld
            } else {
                r.deep_view() == spec_append_keyword(spec_insert_keyword_block(ld), keyword@)
            }
        }),
{
    if contains(path, "/includes/") {
        return copy_lines(content);
    }
    let w = insert_keyword_block(content);
    append_keyword(&w, keyword)
}

/// How many lines hold `pat`, counting the lines at or after `i`.
pub open spec fn count_lines_from(ls: Seq<Seq<char>>, pat: Seq<char>, i: int) -> int
    decreases ls.len() - i,
{
    if i < 0 || i >= ls.len() {
        0
    } else {
        (if contains_sub(ls[i], pat) {
            1int
        } else {
            0int
        }) + count_lines_from(ls, pat, i + 1)
    }
}

/// How many lines of the document hold `pat`.  The pipeline's final
/// consistency pass uses this to refuse a document with two facet name
/// lines.
#[verifier::loop_isolation(false)]
pub fn count_lines_containing(lines: &Vec<String>, pat: &str) -> (r: usize)
    ensures
        r as int == count_lines_from(lines.deep_view(), pat@, 0),
{
    let ghost ld = lines.deep_view();
    let n = lines.len();
    let mut cnt: usize = 0;
    let mut i: usize = 0;
    while i < n
        invariant
            0 <= i <= n,
            n == ld.len(),
            cnt <= i,
            cnt as int + count_lines_from(ld, pat@, i as int) == count_lines_from(ld, pat@, 0),
        decreases n - i,
    {
        proof {
            assert(ld[i as int] == lines@[i as int]@);
        }
        if contains(lines[i].as_str(), pat) {
            cnt += 1;
        }
        i += 1;
    }
    cnt
}

/// A plain keyword: non-empty, without commas, neither starting nor
/// ending in whitespace.  The fixed keywords the pipeline appends all
/// have this shape.
pub open spec fn valid_keyword(k: Seq<char>) -> bool {
    &&& k.len() > 0
    &&& !k.contains(',')
    &&& !is_space(k[0])
    &&& !is_space(k[k.len() - 1])
}

/// A keyword line on which an append can be parsed back: a line that
/// ends with the bare `:keywords:` marker must carry nothing before it
/// but whitespace.  On a line such as `x:keywords:` the parse cannot see
/// an appended keyword, and a second append would add it again.
pub open spec fn appendable_kw_line(l: Seq<char>) -> bool {
    ends_with(l, ":keywords:"@) ==> spec_trim_start(l) == ":keywords:"@
}

/// Appending to a line that is whitespace plus the bare marker gives a
/// line whose parse is the keyword alone.
#[verifier::rlimit(30)]
proof fn lemma_parse_appended_bare(l: Seq<char>, k: Seq<char>)
    requires
        valid_keyword(k),
        ends_with(l, ":keywords:"@),
        spec_trim_start(l) == ":keywords:"@,
    ensures
        spec_parse_kw_line(spec_appended_kw_line(l, k)).contains(k),
{
    let kw = ":keywords:"@;
    reveal_strlit(":keywords:");
    reveal_strlit(" ");
    assert forall|q: int| 0 <= q < k.len() implies k[q] != ',' by {
        if k[q] == ',' {
            assert(k.contains(','));
        }
    }
    assert(spec_trim_start(k) == k);
    assert(spec_trim_end(k) == k);
    let nl = (l + " "@) + k;
    crate::text::lemma_trim_start_removes(l);
    let d = choose|d: int|
        {
            &&& 0 <= d <= l.len()
            &&& #[trigger] l.skip(d) == spec_trim_start(l)
            &&& forall|q: int| 0 <= q < d ==> is_space(l[q])
        };
    let x = (kw + " "@) + k;
    assert(nl.skip(d) =~= x) by {
        assert forall|t: int| 0 <= t < nl.skip(d).len() implies nl.skip(d)[t] == x[t] by {
            assert(nl.skip(d)[t] == nl[d + t]);
            if d + t < l.len() {
                assert(nl[d + t] == l[d + t]);
                assert(l.skip(d)[t] == l[d + t]);
                assert(kw[t] == l.skip(d)[t]);
            }
        }
    }
    assert forall|q: int| 0 <= q < d implies is_space(nl[q]) by {
        assert(nl[q] == l[q]);
    }
    crate::text::lemma_trim_start_skip_spaces(nl, d);
    assert(x[0] == ':');
    assert(!is_space(':'));
    let t1 = spec_trim_start(nl);
    assert(t1 == x);
    assert(starts_with(x, kw)) by {
        assert(x.subrange(0, kw.len() as int) =~= kw);
    }
    let y = x.skip(kw.len() as int);
    assert(y =~= " "@ + k);
    assert(!starts_with(y, kw)) by {
        if starts_with(y, kw) {
            assert(y.subrange(0, kw.len() as int)[0] == y[0]);
            assert(y[0] == ' ');
        }
    }
    assert(spec_strip_prefix(x, kw) == spec_strip_prefix(y, kw));
    assert(spec_strip_prefix(y, kw) == y);
    let t2 = spec_strip_prefix(t1, kw);
    assert(t2 == y);
    assert(y[0] == ' ');
    assert(y.skip(1) =~= k);
    let t3 = spec_trim_start(t2);
    assert(t3 == k);
    crate::text::lemma_split_trim_whole(k, ',', 0, 0);
    assert(k.subrange(0, k.len() as int) =~= k);
    assert(spec_trim(k) == k);
    assert(spec_parse_kw_line(nl) == seq![k]);
    assert(spec_parse_kw_line(nl)[0] == k);
    assert(spec_parse_kw_line(nl).contains(k));
}

/// Appending with a separating comma leaves the keyword as the trimmed
/// piece after the last comma, where the parse finds it.
#[verifier::rlimit(30)]
proof fn lemma_parse_appended_comma(l: Seq<char>, k: Seq<char>)
    requires
        valid_keyword(k),
        !ends_with(l, ":keywords:"@),
    ensures
        spec_parse_kw_line(spec_appended_kw_line(l, k)).contains(k),
{
    let kw = ":keywords:"@;
    reveal_strlit(":keywords:");
    reveal_strlit(", ");
    assert forall|q: int| 0 <= q < k.len() implies k[q] != ',' by {
        if k[q] == ',' {
            assert(k.contains(','));
        }
    }
    let nl = (l + ", "@) + k;
    assert(nl[l.len() as int] == ',');
    assert(nl[l.len() as int + 1] == ' ');
    assert forall|t: int| 0 <= t < k.len() implies nl[l.len() as int + 2 + t] == k[t] by {}
    crate::text::lemma_trim_start_removes(nl);
    let d1 = choose|d: int|
        {
            &&& 0 <= d <= nl.len()
            &&& #[trigger] nl.skip(d) == spec_trim_start(nl)
            &&& forall|q: int| 0 <= q < d ==> is_space(nl[q])
        };
    let t1 = spec_trim_start(nl);
    assert forall|q: int| 0 <= q < kw.len() implies kw[q] != ',' by {}
    crate::text::lemma_strip_prefix_removes(t1, kw, ',');
    let d2 = choose|d: int|
        {
            &&& 0 <= d <= t1.len()
            &&& #[trigger] t1.skip(d) == spec_strip_prefix(t1, kw)
            &&& forall|q: int| 0 <= q < d ==> t1[q] != ','
        };
    let t2 = spec_strip_prefix(t1, kw);
    crate::text::lemma_trim_start_removes(t2);
    let d3 = choose|d: int|
        {
            &&& 0 <= d <= t2.len()
            &&& #[trigger] t2.skip(d) == spec_trim_start(t2)
            &&& forall|q: int| 0 <= q < d ==> is_space(t2[q])
        };
    let t3 = spec_trim_start(t2);
    crate::text::lemma_skip_skip(nl, d1, d2);
    assert(t2 == nl.skip(d1 + d2));
    crate::text::lemma_skip_skip(nl, d1 + d2, d3);
    assert(t3 == nl.skip(d1 + d2 + d3));
    let dd = d1 + d2 + d3;
    assert(!is_space(','));
    assert forall|q: int| 0 <= q < dd implies nl[q] != ',' by {
        if q < d1 {
            assert(is_space(nl[q]));
        } else if q < d1 + d2 {
            assert(t1[q - d1] != ',');
            assert(t1[q - d1] == nl[q]);
        } else {
            assert(is_space(t2[q - d1 - d2]));
            assert(t2[q - d1 - d2] == nl[q]);
        }
    }
    assert(dd <= l.len());
    let p = l.len() - dd;
    assert(t3[p] == ',') by {
        assert(t3[p] == nl[dd + p]);
    }
    assert(p < t3.len());
    assert forall|q: int| p < q < t3.len() implies t3[q] != ',' by {
        assert(t3[q] == nl[dd + q]);
        if dd + q == l.len() + 1 {
            assert(nl[dd + q] == ' ');
        } else {
            assert(nl[dd + q] == k[dd + q - l.len() - 2]);
        }
    }
    crate::text::lemma_split_trim_tail(t3, ',', p, 0, 0);
    let u = t3.subrange(p + 1, t3.len() as int);
    assert(u.len() == k.len() + 1);
    assert(u[0] == ' ') by {
        assert(u[0] == t3[p + 1]);
        assert(t3[p + 1] == nl[l.len() as int + 1]);
    }
    assert(u.skip(1) =~= k) by {
        assert forall|t: int| 0 <= t < k.len() implies u.skip(1)[t] == k[t] by {
            assert(u.skip(1)[t] == u[1 + t]);
            assert(u[1 + t] == t3[p + 2 + t]);
            assert(t3[p + 2 + t] == nl[l.len() as int + 2 + t]);
        }
    }
    crate::text::lemma_trim_space_keyword(u, k);
    assert(spec_parse_kw_line(nl).contains(k));
}

/// After appending `k` to a keyword line, parsing the line finds `k`.
proof fn lemma_parse_appended(l: Seq<char>, k: Seq<char>)
    requires
        valid_keyword(k),
        appendable_kw_line(l),
    ensures
        spec_parse_kw_line(spec_appended_kw_line(l, k)).contains(k),
{
    if ends_with(l, ":keywords:"@) {
        lemma_parse_appended_bare(l, k);
    } else {
        lemma_parse_appended_comma(l, k);
    }
}

/// Law: appending the same keyword twice equals appending it once.  The
/// first append leaves `k` in the keyword list, so the second finds it
/// there and is a no-op.  A keyword already present is idempotent as it
/// stands; a keyword actually appended must be plain and the keyword
/// line appendable, or the parse cannot see it again.
pub proof fn lemma_append_keyword_idempotent(ls: Seq<Seq<char>>, k: Seq<char>)
    requires
        match first_line_containing(ls, ":keywords:"@) {
            Some(i) => spec_parse_kw_line(ls[i]).contains(k) || (valid_keyword(k)
                && appendable_kw_line(ls[i])),
            None => true,
        },
    ensures
        spec_append_keyword(spec_append_keyword(ls, k), k) == spec_append_keyword(ls, k),
{
    let kw = ":keywords:"@;
    lemma_first_line(ls, kw);
    match first_line_containing(ls, kw) {
        None => {},
        Some(i) => {
            if spec_parse_kw_line(ls[i]).contains(k) {
            } else {
                let l = ls[i];
                let nl = spec_appended_kw_line(l, k);
                let ls2 = ls.update(i, nl);
                let j = choose|j: int| match_at(l, kw, j);
                if ends_with(l, kw) {
                    crate::text::lemma_match_at_append(l, kw, j, " "@);
                    crate::text::lemma_match_at_append(l + " "@, kw, j, k);
                } else {
                    crate::text::lemma_match_at_append(l, kw, j, ", "@);
                    crate::text::lemma_match_at_append(l + ", "@, kw, j, k);
                }
                assert(contains_sub(nl, kw));
                lemma_first_line_at(ls2, kw, i);
                lemma_parse_appended(l, k);
                assert(spec_parse_kw_line(ls2[i]).contains(k));
                assert(spec_append_keyword(ls2, k) == ls2);
            }
        },
    }
}

/// A fresh facet block matches the facet block pattern at line 0.
proof fn lemma_fresh_facet_block(ls: Seq<Seq<char>>, langs: Seq<Language>)
    ensures
        facet_block_at(spec_facet_block(langs) + ls, 0),
{
    let w = spec_facet_block(langs) + ls;
    let hdr = ".. facet::"@;
    let nm = ":name: programming_language"@;
    let vm = ":values:"@;
    reveal_strlit(".. facet::");
    reveal_strlit("   :name: programming_language");
    reveal_strlit(":name: programming_language");
    reveal_strlit("   :values: ");
    reveal_strlit(":values:");
    assert(w[0] == hdr);
    assert(match_at(w[0], hdr, 0)) by {
        assert(hdr.subrange(0, hdr.len() as int) =~= hdr);
    }
    assert(contains_sub(w[0], hdr));
    assert(w[1] == "   :name: programming_language"@);
    assert(match_at(w[1], nm, 3)) by {
        assert(w[1].subrange(3, 3 + nm.len() as int) =~= nm);
    }
    assert(contains_sub(w[1], nm));
    assert(w[2] == spec_facet_values_line(langs));
    assert(match_at(w[2], vm, 3)) by {
        assert(w[2].subrange(3, 3 + vm.len() as int) =~= vm);
    }
    assert(has_values_marker(w[2]));
}

/// Law: inserting a facet block into content that already has one is a
/// skip, never a duplicate; in particular, inserting twice equals
/// inserting once, whatever the second call would have named.
pub proof fn lemma_insert_facet_block_idempotent(
    ls: Seq<Seq<char>>,
    langs1: Seq<Language>,
    langs2: Seq<Language>,
)
    ensures
        has_facet_block(ls) ==> spec_insert_facet_block(ls, langs1) == ls,
        spec_insert_facet_block(spec_insert_facet_block(ls, langs1), langs2)
            == spec_insert_facet_block(ls, langs1),
{
    if !has_facet_block(ls) {
        lemma_fresh_facet_block(ls, langs1);
        assert(has_facet_block(spec_facet_block(langs1) + ls));
    }
}

/// Law: inserting a keyword block into content that already has a
/// keyword line is a no-op; in particular, inserting twice equals
/// inserting once.
pub proof fn lemma_insert_keyword_block_idempotent(ls: Seq<Seq<char>>)
    ensures
        some_line_contains(ls, ":keywords:"@) ==> spec_insert_keyword_block(ls) == ls,
        spec_insert_keyword_block(spec_insert_keyword_block(ls)) == spec_insert_keyword_block(ls),
{
    let kw = ":keywords:"@;
    if !some_line_contains(ls, kw) {
        let w = spec_keyword_block() + ls;
        reveal_strlit("   :keywords:");
        reveal_strlit(":keywords:");
        assert(w[1] == "   :keywords:"@);
        assert(match_at(w[1], kw, 3)) by {
            assert(w[1].subrange(3, 3 + kw.len() as int) =~= kw);
        }
        assert(contains_sub(w[1], kw));
        assert(some_line_contains(w, kw));
    }
}

/// Law: removing the facet block that was just inserted restores the
/// content exactly.  The content must have had no block, and must not
/// begin with an empty line: removal swallows the blank separator line
/// together with any empty lines right after it, so a leading empty line
/// of the content would be swallowed too.
pub proof fn lemma_facet_round_trip(ls: Seq<Seq<char>>, langs: Seq<Language>)
    requires
        !has_facet_block(ls),
        langs.len() > 0,
        ls.len() > 0 ==> ls[0].len() > 0,
    ensures
        spec_remove_facet_block(spec_insert_facet_block(ls, langs)) == ls,
{
    let w = spec_facet_block(langs) + ls;
    lemma_fresh_facet_block(ls, langs);
    assert(spec_insert_facet_block(ls, langs) == w);
    assert(first_facet_block(w) == Some(0int));
    reveal_strlit("");
    assert(w[3].len() == 0);
    if ls.len() > 0 {
        assert(w[4] == ls[0]);
        assert(skip_empty_from(w, 4) == 4);
    } else {
        assert(w.len() == 4);
        assert(skip_empty_from(w, 4) == 4);
    }
    assert(skip_empty_from(w, 3) == 4);
    assert(w.take(0) + w.skip(4) =~= ls);
}

/// A count of lines is never negative.
proof fn lemma_count_nonneg(ls: Seq<Seq<char>>, pat: Seq<char>, i: int)
    ensures
        count_lines_from(ls, pat, i) >= 0,
    decreases ls.len() - i,
{
    if 0 <= i < ls.len() {
        lemma_count_nonneg(ls, pat, i + 1);
    }
}

/// A zero count means no line holds the pattern.
proof fn lemma_count_zero(ls: Seq<Seq<char>>, pat: Seq<char>, i: int)
    requires
        0 <= i,
        count_lines_from(ls, pat, i) == 0,
    ensures
        forall|j: int| i <= j < ls.len() ==> !contains_sub(ls[j], pat),
    decreases ls.len() - i,
{
    if i < ls.len() {
        lemma_count_nonneg(ls, pat, i + 1);
        lemma_count_zero(ls, pat, i + 1);
    }
}

proof fn lemma_count_shift(a: Seq<Seq<char>>, b: Seq<Seq<char>>, pat: Seq<char>, j: int)
    requires
        0 <= j <= b.len(),
    ensures
        count_lines_from(a + b, pat, a.len() + j) == count_lines_from(b, pat, j),
    decreases b.len() - j,
{
    if j < b.len() {
        assert((a + b)[a.len() + j] == b[j]);
        lemma_count_shift(a, b, pat, j + 1);
    }
}

/// Counting lines is additive across concatenation.
proof fn lemma_count_concat_from(a: Seq<Seq<char>>, b: Seq<Seq<char>>, pat: Seq<char>, i: int)
    requires
        0 <= i <= a.len(),
    ensures
        count_lines_from(a + b, pat, i) == count_lines_from(a, pat, i) + count_lines_from(
            b,
            pat,
            0,
        ),
    decreases a.len() - i,
{
    if i == a.len() {
        lemma_count_shift(a, b, pat, 0);
    } else {
        assert((a + b)[i] == a[i]);
        lemma_count_concat_from(a, b, pat, i + 1);
    }
}

/// A match inside a matched substring is a match in the whole.
proof fn lemma_match_at_within(l: Seq<char>, a: Seq<char>, b: Seq<char>, i: int, j: int)
    requires
        match_at(l, a, i),
        match_at(a, b, j),
    ensures
        match_at(l, b, i + j),
{
    assert(l.subrange(i + j, i + j + b.len() as int) =~= a.subrange(j, j + b.len() as int)) by {
        assert forall|t: int|
            0 <= t < b.len() implies l.subrange(i + j, i + j + b.len() as int)[t] == #[trigger] a.subrange(
            j,
            j + b.len() as int,
        )[t] by {
            assert(l.subrange(i, i + a.len() as int)[j + t] == l[i + j + t]);
        }
    }
}

/// No canonical language rendering holds an underscore.
proof fn lemma_render_no_underscore(l: Language)
    ensures
        forall|q: int| 0 <= q < l.spec_render().len() ==> l.spec_render()[q] != '_',
{
    reveal_strlit("c");
    reveal_strlit("cpp");
    reveal_strlit("csharp");
    reveal_strlit("go");
    reveal_strlit("java");
    reveal_strlit("javascript/typescript");
    reveal_strlit("kotlin");
    reveal_strlit("perl");
    reveal_strlit("php");
    reveal_strlit("python");
    reveal_strlit("ruby");
    reveal_strlit("rust");
    reveal_strlit("scala");
    reveal_strlit("shell");
    reveal_strlit("swift");
}

/// A joined value list holds no underscore either.
proof fn lemma_join_no_underscore(langs: Seq<Language>)
    ensures
        forall|q: int| 0 <= q < spec_join_langs(langs).len() ==> spec_join_langs(langs)[q] != '_',
    decreases langs.len(),
{
    reveal_strlit(", ");
    if langs.len() == 0 {
    } else if langs.len() == 1 {
        lemma_render_no_underscore(langs[0]);
    } else {
        lemma_join_no_underscore(langs.drop_last());
        lemma_render_no_underscore(langs.last());
        let head = spec_join_langs(langs.drop_last());
        let tail = langs.last().spec_render();
        assert forall|q: int|
            0 <= q < spec_join_langs(langs).len() implies spec_join_langs(langs)[q] != '_' by {
            if q < head.len() {
                assert(spec_join_langs(langs)[q] == head[q]);
            } else if q < head.len() + 2 {
                assert(spec_join_langs(langs)[q] == ", "@[q - head.len()]);
            } else {
                assert(spec_join_langs(langs)[q] == tail[q - head.len() - 2]);
            }
        }
    }
}

/// Law: inserting a facet block into a document with no facet name line
/// leaves exactly one: the mutation engine never produces the double
/// block that the pipeline's final consistency pass refuses.
pub proof fn lemma_insert_facet_block_single(ls: Seq<Seq<char>>, langs: Seq<Language>)
    requires
        count_lines_from(ls, "programming_language"@, 0) == 0,
    ensures
        count_lines_from(spec_insert_facet_block(ls, langs), "programming_language"@, 0) == 1,
{
    let pat = "programming_language"@;
    let nm = ":name: programming_language"@;
    reveal_strlit("programming_language");
    reveal_strlit(":name: programming_language");
    reveal_strlit("   :name: programming_language");
    reveal_strlit(".. facet::");
    reveal_strlit("   :values: ");
    reveal_strlit("");
    lemma_count_zero(ls, pat, 0);
    assert(!has_facet_block(ls)) by {
        if has_facet_block(ls) {
            let i = choose|i: int| facet_block_at(ls, i);
            let line1 = ls[i + 1];
            assert(contains_sub(line1, nm));
            let j = choose|j: int| match_at(line1, nm, j);
            assert(match_at(nm, pat, 7)) by {
                assert(nm.subrange(7, 27) =~= pat);
            }
            lemma_match_at_within(line1, nm, pat, j, 7);
            assert(contains_sub(line1, pat));
        }
    }
    let block = spec_facet_block(langs);
    let w = block + ls;
    assert(spec_insert_facet_block(ls, langs) == w);
    lemma_count_concat_from(block, ls, pat, 0);
    assert(count_lines_from(block, pat, 0) == 1) by {
        assert(!contains_sub(block[0], pat)) by {
            if contains_sub(block[0], pat) {
                let q = choose|q: int| match_at(block[0], pat, q);
                assert(q + pat.len() > block[0].len());
            }
        }
        assert(contains_sub(block[1], pat)) by {
            assert(match_at(block[1], pat, 10)) by {
                assert(block[1].subrange(10, 30) =~= pat);
            }
        }
        assert(!contains_sub(block[2], pat)) by {
            if contains_sub(block[2], pat) {
                let q = choose|q: int| match_at(block[2], pat, q);
                assert(block[2].subrange(q, q + pat.len() as int)[11] == block[2][q + 11]);
                assert(block[2][q + 11] == '_');
                lemma_join_no_underscore(langs);
                assert forall|t: int|
                    0 <= t < block[2].len() implies #[trigger] block[2][t] != '_' by {
                    if t < "   :values: "@.len() {
                        assert(block[2][t] == "   :values: "@[t]);
                    } else {
                        assert(block[2][t] == spec_join_langs(langs)[t - 12]);
                    }
                }
            }
        }
        assert(!contains_sub(block[3], pat)) by {
            if contains_sub(block[3], pat) {
                let q = choose|q: int| match_at(block[3], pat, q);
                assert(q + pat.len() > block[3].len());
            }
        }
        assert(count_lines_from(block, pat, 4) == 0);
        assert(count_lines_from(block, pat, 3) == 0);
        assert(count_lines_from(block, pat, 2) == 0);
        assert(count_lines_from(block, pat, 1) == 1);
    }
}

/// Law: inserting a keyword block into a document with no keyword line
/// leaves exactly one keyword line.
pub proof fn lemma_insert_keyword_block_single(ls: Seq<Seq<char>>)
    requires
        count_lines_from(ls, ":keywords:"@, 0) == 0,
    ensures
        count_lines_from(spec_insert_keyword_block(ls), ":keywords:"@, 0) == 1,
{
    let pat = ":keywords:"@;
    reveal_strlit(":keywords:");
    reveal_strlit(".. meta::");
    reveal_strlit("   :keywords:");
    reveal_strlit("");
    lemma_count_zero(ls, pat, 0);
    assert(!some_line_contains(ls, pat));
    let block = spec_keyword_block();
    let w = block + ls;
    assert(spec_insert_keyword_block(ls) == w);
    lemma_count_concat_from(block, ls, pat, 0);
    assert(count_lines_from(block, pat, 0) == 1) by {
        assert(!contains_sub(block[0], pat)) by {
            if contains_sub(block[0], pat) {
                let q = choose|q: int| match_at(block[0], pat, q);
                assert(q + pat.len() > block[0].len());
            }
        }
        assert(contains_sub(block[1], pat)) by {
            assert(match_at(block[1], pat, 3)) by {
                assert(block[1].subrange(3, 13) =~= pat);
            }
        }
        assert(!contains_sub(block[2], pat)) by {
            if contains_sub(block[2], pat) {
                let q = choose|q: int| match_at(block[2], pat, q);
                assert(q + pat.len() > block[2].len());
            }
        }
        assert(count_lines_from(block, pat, 3) == 0);
        assert(count_lines_from(block, pat, 2) == 0);
        assert(count_lines_from(block, pat, 1) == 1);
    }
}

/// Law: appending a keyword never changes how many lines carry the
/// keyword marker: the marked line is extended, never duplicated.
pub proof fn lemma_append_keyword_keeps_count(ls: Seq<Seq<char>>, k: Seq<char>)
    ensures
        count_lines_from(spec_append_keyword(ls, k), ":keywords:"@, 0) == count_lines_from(
            ls,
            ":keywords:"@,
            0,
        ),
{
    let pat = ":keywords:"@;
    lemma_first_line(ls, pat);
    match first_line_containing(ls, pat) {
        None => {},
        Some(i) => {
            if spec_parse_kw_line(ls[i]).contains(k) {
            } else {
                let nl = spec_appended_kw_line(ls[i], k);
                let j = choose|j: int| match_at(ls[i], pat, j);
                if ends_with(ls[i], pat) {
                    crate::text::lemma_match_at_append(ls[i], pat, j, " "@);
                    crate::text::lemma_match_at_append(ls[i] + " "@, pat, j, k);
                } else {
                    crate::text::lemma_match_at_append(ls[i], pat, j, ", "@);
                    crate::text::lemma_match_at_append(ls[i] + ", "@, pat, j, k);
                }
                assert(contains_sub(nl, pat));
                lemma_count_update(ls, pat, i, nl, 0);
            }
        },
    }
}

/// Replacing a line with one that also holds the pattern keeps the
/// count.
proof fn lemma_count_update(ls: Seq<Seq<char>>, pat: Seq<char>, i: int, nl: Seq<char>, q: int)
    requires
        0 <= q,
        0 <= i < ls.len(),
        contains_sub(ls[i], pat),
        contains_sub(nl, pat),
    ensures
        count_lines_from(ls.update(i, nl), pat, q) == count_lines_from(ls, pat, q),
    decreases ls.len() - q,
{
    if q < ls.len() {
        lemma_count_update(ls, pat, i, nl, q + 1);
        if q != i {
            assert(ls.update(i, nl)[q] == ls[q]);
        } else {
            assert(ls.update(i, nl)[q] == nl);
        }
    }
}

} // verus!
