//! Reading metadata out of a document: tab identifiers, keyword lists,
//! facet values, and the per-document checks that decide which tagging
//! reasons apply.

use vstd::prelude::*;
use crate::text::{
    contains_sub, match_at, spec_trim, spec_trim_start, spec_strip_prefix, spec_split_trim,
    spec_segment_after, ends_with, contains, str_eq, str_ends_with, trim, trim_start,
    strip_prefix_all, split_trim, segment_after,
};
use crate::types::{Language, Reason, JavaSyncness, LangSet, spec_parse_lang};

verus! {

/// Index of the first line at or after `i` that holds `pat`, if any.
pub open spec fn first_line_from(ls: Seq<Seq<char>>, pat: Seq<char>, i: int) -> Option<int>
    decreases ls.len() - i,
{
    if i < 0 || i >= ls.len() {
        None
    } else if contains_sub(ls[i], pat) {
        Some(i)
    } else {
        first_line_from(ls, pat, i + 1)
    }
}

/// Index of the first line that holds `pat`, if any.
pub open spec fn first_line_containing(ls: Seq<Seq<char>>, pat: Seq<char>) -> Option<int> {
    first_line_from(ls, pat, 0)
}

/// Some line holds `pat`.
pub open spec fn some_line_contains(ls: Seq<Seq<char>>, pat: Seq<char>) -> bool {
    exists|i: int| 0 <= i < ls.len() && contains_sub(ls[i], pat)
}

/// `first_line_from` returns exactly the first holding line at or after `i`.
pub proof fn lemma_first_line_from(ls: Seq<Seq<char>>, pat: Seq<char>, i: int)
    requires
        0 <= i,
    ensures
        match first_line_from(ls, pat, i) {
            Some(j) => i <= j < ls.len() && contains_sub(ls[j], pat) && (forall|k: int|
                i <= k < j ==> !contains_sub(ls[k], pat)),
            None => forall|k: int| i <= k < ls.len() ==> !contains_sub(ls[k], pat),
        },
    decreases ls.len() - i,
{
    if i >= ls.len() {
    } else if contains_sub(ls[i], pat) {
    } else {
        lemma_first_line_from(ls, pat, i + 1);
    }
}

/// The first holding line is found if and only if one exists.
pub proof fn lemma_first_line(ls: Seq<Seq<char>>, pat: Seq<char>)
    ensures
        match first_line_containing(ls, pat) {
            Some(j) => 0 <= j < ls.len() && contains_sub(ls[j], pat) && (forall|k: int|
                0 <= k < j ==> !contains_sub(ls[k], pat)),
            None => !some_line_contains(ls, pat),
        },
{
    lemma_first_line_from(ls, pat, 0);
}

/// When line `i` holds `pat` and no earlier line does, line `i` is the
/// first found.
pub proof fn lemma_first_line_at(ls: Seq<Seq<char>>, pat: Seq<char>, i: int)
    requires
        0 <= i < ls.len(),
        contains_sub(ls[i], pat),
        forall|q: int| 0 <= q < i ==> !contains_sub(ls[q], pat),
    ensures
        first_line_containing(ls, pat) == Some(i),
{
    lemma_first_line_from_at(ls, pat, i, 0);
}

proof fn lemma_first_line_from_at(ls: Seq<Seq<char>>, pat: Seq<char>, i: int, q: int)
    requires
        0 <= q <= i < ls.len(),
        contains_sub(ls[i], pat),
        forall|t: int| q <= t < i ==> !contains_sub(ls[t], pat),
    ensures
        first_line_from(ls, pat, q) == Some(i),
    decreases i - q,
{
    if q < i {
        lemma_first_line_from_at(ls, pat, i, q + 1);
    }
}

/// Index of the first line that holds `pat`, searched executably.
#[verifier::loop_isolation(false)]
pub fn find_line(lines: &Vec<String>, pat: &str) -> (r: Option<usize>)
    ensures
        match r {
            Some(i) => first_line_containing(lines.deep_view(), pat@) == Some(i as int),
            None => first_line_containing(lines.deep_view(), pat@) is None,
        },
{
    let ghost ld = lines.deep_view();
    let mut i: usize = 0;
    while i < lines.len()
        invariant
            0 <= i <= lines.len(),
            ld.len() == lines.len(),
            first_line_containing(ld, pat@) == first_line_from(ld, pat@, i as int),
        decreases lines.len() - i,
    {
        proof {
            assert(ld[i as int] == lines@[i as int]@);
        }
        if contains(lines[i].as_str(), pat) {
            return Some(i);
        }
        i += 1;
    }
    None
}

/// Whether some line holds `pat`.
pub fn lines_contain(lines: &Vec<String>, pat: &str) -> (r: bool)
    ensures
        r == some_line_contains(lines.deep_view(), pat@),
{
    let r = find_line(lines, pat);
    proof {
        lemma_first_line(lines.deep_view(), pat@);
    }
    r.is_some()
}

/// Whether `v` holds a string equal to `s`.
#[verifier::loop_isolation(false)]
pub fn contains_str(v: &Vec<String>, s: &str) -> (r: bool)
    ensures
        r == v.deep_view().contains(s@),
{
    let ghost vd = v.deep_view();
    let mut i: usize = 0;
    while i < v.len()
        invariant
            0 <= i <= v.len(),
            vd.len() == v.len(),
            forall|k: int| 0 <= k < i ==> vd[k] != s@,
        decreases v.len() - i,
    {
        proof {
            assert(vd[i as int] == v@[i as int]@);
        }
        if str_eq(v[i].as_str(), s) {
            proof {
                assert(vd.contains(s@)) by {
                    assert(vd[i as int] == s@);
                }
            }
            return true;
        }
        i += 1;
    }
    proof {
        if vd.contains(s@) {
            let k = choose|k: int| 0 <= k < vd.len() && vd[k] == s@;
        }
    }
    false
}

/// The tab identifier a line declares: the text between the first
/// `:tabid:` marker and the next (or the end of the line), trimmed.
pub open spec fn spec_tabid_of(l: Seq<char>) -> Seq<char> {
    spec_trim(spec_segment_after(l, ":tabid:"@))
}

/// The tab identifiers declared on the lines at or after `i`, in document
/// order, duplicates kept.
pub open spec fn spec_tabids_from(ls: Seq<Seq<char>>, i: int) -> Seq<Seq<char>>
    decreases ls.len() - i,
{
    if i < 0 || i >= ls.len() {
        Seq::empty()
    } else {
        let rest = spec_tabids_from(ls, i + 1);
        if contains_sub(ls[i], ":tabid:"@) {
            seq![spec_tabid_of(ls[i])] + rest
        } else {
            rest
        }
    }
}

/// The tab identifiers a document declares, in document order.
pub open spec fn spec_tabids(ls: Seq<Seq<char>>) -> Seq<Seq<char>> {
    spec_tabids_from(ls, 0)
}

/// Collect every tab identifier declared in the document, in document
/// order, duplicates kept.
#[verifier::loop_isolation(false)]
pub fn get_tabids(lines: &Vec<String>) -> (r: Vec<String>)
    ensures
        r.deep_view() == spec_tabids(lines.deep_view()),
{
    let ghost ld = lines.deep_view();
    let mut out: Vec<String> = Vec::new();
    let mut i: usize = 0;
    proof {
        assert(out.deep_view() + spec_tabids_from(ld, 0) =~= spec_tabids(ld));
    }
    while i < lines.len()
        invariant
            0 <= i <= lines.len(),
            ld.len() == lines.len(),
            out.deep_view() + spec_tabids_from(ld, i as int) == spec_tabids(ld),
        decreases lines.len() - i,
    {
        proof {
            assert(ld[i as int] == lines@[i as int]@);
        }
        let line = lines[i].as_str();
        let ghost pre = out.deep_view();
        if contains(line, ":tabid:") {
            let seg = segment_after(line, ":tabid:");
            let tabid = trim(seg);
            out.push(tabid.to_owned());
            proof {
                assert(out.deep_view() =~= pre.push(spec_tabid_of(ld[i as int])));
                assert(out.deep_view() + spec_tabids_from(ld, i + 1) =~= pre + spec_tabids_from(
                    ld,
                    i as int,
                ));
            }
        }
        i += 1;
    }
    proof {
        assert(out.deep_view() =~= out.deep_view() + spec_tabids_from(ld, ld.len() as int));
    }
    out
}

/// The keyword list carried by a keyword line: the line is stripped of
/// leading whitespace and of the `:keywords:` marker, then cut at commas,
/// each entry trimmed.
pub open spec fn spec_parse_kw_line(l: Seq<char>) -> Seq<Seq<char>> {
    spec_split_trim(
        spec_trim_start(spec_strip_prefix(spec_trim_start(l), ":keywords:"@)),
        ',',
    )
}

/// The keyword list of the first `:keywords:` line, if the document has
/// one.
pub fn get_meta_keywords(lines: &Vec<String>) -> (r: Option<Vec<String>>)
    ensures
        match first_line_containing(lines.deep_view(), ":keywords:"@) {
            Some(i) => r matches Some(v) && v.deep_view() == spec_parse_kw_line(
                lines.deep_view()[i],
            ),
            None => r is None,
        },
{
    match find_line(lines, ":keywords:") {
        None => None,
        Some(i) => {
            proof {
                lemma_first_line(lines.deep_view(), ":keywords:"@);
                assert(lines.deep_view()[i as int] == lines@[i as int]@);
            }
            let s1 = trim_start(lines[i].as_str());
            let s2 = strip_prefix_all(s1, ":keywords:");
            let s3 = trim_start(s2);
            Some(split_trim(s3, ','))
        },
    }
}

/// The set of languages named by any of the tokens: each token is looked
/// up in the taxonomy and unrecognized tokens contribute nothing.
pub open spec fn langs_of_tokens(toks: Seq<Seq<char>>) -> Set<Language> {
    Set::new(
        |l: Language|
            exists|k: int| 0 <= k < toks.len() && spec_parse_lang(toks[k]) == Some(l),
    )
}

/// Fold the recognized tokens into a language set in canonical order.
#[verifier::loop_isolation(false)]
pub fn langset_of_tokens(toks: &Vec<String>) -> (s: LangSet)
    ensures
        s.wf(),
        s@.to_set() == langs_of_tokens(toks.deep_view()),
{
    let ghost td = toks.deep_view();
    let mut s = LangSet::new();
    let mut k: usize = 0;
    proof {
        assert(s@.to_set() =~= langs_of_tokens(td.take(0)));
    }
    while k < toks.len()
        invariant
            0 <= k <= toks.len(),
            td.len() == toks.len(),
            s.wf(),
            s@.to_set() == langs_of_tokens(td.take(k as int)),
        decreases toks.len() - k,
    {
        proof {
            assert(td[k as int] == toks@[k as int]@);
        }
        let ghost pre = s@.to_set();
        match Language::from_str(toks[k].as_str()) {
            Ok(l) => {
                s.insert(l);
                proof {
                    assert(s@.to_set() =~= langs_of_tokens(td.take(k + 1))) by {
                        assert forall|x: Language| pre.insert(l).contains(x) implies langs_of_tokens(
                            td.take(k + 1),
                        ).contains(x) by {
                            if pre.contains(x) {
                                let j = choose|j: int|
                                    0 <= j < k && #[trigger] spec_parse_lang(td.take(k as int)[j]) == Some(x);
                                assert(td.take(k + 1)[j] == td[j]);
                            } else {
                                assert(td.take(k + 1)[k as int] == td[k as int]);
                            }
                        }
                        assert forall|x: Language|
                            langs_of_tokens(td.take(k + 1)).contains(x) implies pre.insert(
                            l,
                        ).contains(x) by {
                            let j = choose|j: int|
                                0 <= j < k + 1 && #[trigger] spec_parse_lang(td.take(k + 1)[j]) == Some(x);
                            if j < k {
                                assert(td.take(k as int)[j] == td[j]);
                                assert(langs_of_tokens(td.take(k as int)).contains(x));
                            }
                        }
                    }
                }
            },
            Err(_) => {
                proof {
                    assert(s@.to_set() =~= langs_of_tokens(td.take(k + 1))) by {
                        assert forall|x: Language| pre.contains(x) implies langs_of_tokens(
                            td.take(k + 1),
                        ).contains(x) by {
                            let j = choose|j: int|
                                0 <= j < k && #[trigger] spec_parse_lang(td.take(k as int)[j]) == Some(x);
                            assert(td.take(k + 1)[j] == td[j]);
                        }
                        assert forall|x: Language|
                            langs_of_tokens(td.take(k + 1)).contains(x) implies pre.contains(
                            x,
                        ) by {
                            let j = choose|j: int|
                                0 <= j < k + 1 && #[trigger] spec_parse_lang(td.take(k + 1)[j]) == Some(x);
                            assert(j < k);
                            assert(td.take(k as int)[j] == td[j]);
                        }
                    }
                }
            },
        }
        k += 1;
    }
    proof {
        assert(td.take(td.len() as int) =~= td);
    }
    s
}

/// Some line opens a tabbed code-example section, in either of the two
/// directive spellings.
pub open spec fn has_tab_trigger(ls: Seq<Seq<char>>) -> bool {
    some_line_contains(ls, "tabs-selector:: drivers"@) || some_line_contains(
        ls,
        "tabs-drivers::"@,
    )
}

/// A document needs language metadata when it shows a tabbed
/// code-example section — a line with either trigger spelling — and at
/// least one tab names a known language.  Tab identifiers are collected
/// from the whole document wherever they stand; the trigger gates this
/// check as a whole, not line by line.
pub fn check_needs_lang_metadata(lines: &Vec<String>) -> (r: Option<Reason>)
    ensures
        ({
            let ld = lines.deep_view();
            let langs = langs_of_tokens(spec_tabids(ld));
            match r {
                Some(x) => has_tab_trigger(ld) && (x matches Reason::Languages(
                    s,
                ) && s.wf() && s@.to_set() == langs && s@.len() > 0),
                None => !has_tab_trigger(ld) || (forall|l: Language| !langs.contains(l)),
            }
        }),
{
    let triggered = lines_contain(lines, "tabs-selector:: drivers") || lines_contain(
        lines,
        "tabs-drivers::",
    );
    if !triggered {
        return None;
    }
    let tabids = get_tabids(lines);
    let s = langset_of_tokens(&tabids);
    if s.is_empty() {
        proof {
            assert forall|l: Language|
                !langs_of_tokens(spec_tabids(lines.deep_view())).contains(l) by {
                assert(!s@.contains(l));
                assert(!s@.to_set().contains(l));
            }
        }
        None
    } else {
        Some(Reason::Languages(s))
    }
}

/// A document needs the Node.js topical tag when it declares a `nodejs`
/// tab.
pub fn check_needs_nodejs_tag(lines: &Vec<String>) -> (r: Option<Reason>)
    ensures
        ({
            let t = spec_tabids(lines.deep_view());
            match r {
                Some(x) => x is NodejsTab && t.contains("nodejs"@),
                None => !t.contains("nodejs"@),
            }
        }),
{
    let tabids = get_tabids(lines);
    if contains_str(&tabids, "nodejs") {
        Some(Reason::NodejsTab)
    } else {
        None
    }
}

/// A document needs the Compass topical tag when it declares a `compass`
/// tab.
pub fn check_needs_compass_tag(lines: &Vec<String>) -> (r: Option<Reason>)
    ensures
        ({
            let t = spec_tabids(lines.deep_view());
            match r {
                Some(x) => x is CompassTab && t.contains("compass"@),
                None => !t.contains("compass"@),
            }
        }),
{
    let tabids = get_tabids(lines);
    if contains_str(&tabids, "compass") {
        Some(Reason::CompassTab)
    } else {
        None
    }
}

/// A document needs the Atlas API topical tag when it declares an
/// `atlasapi` or an `api` tab: either token is enough.
pub fn check_needs_atlas_api_tag(lines: &Vec<String>) -> (r: Option<Reason>)
    ensures
        ({
            let t = spec_tabids(lines.deep_view());
            let hit = t.contains("atlasapi"@) || t.contains("api"@);
            match r {
                Some(x) => x is AtlasApiTab && hit,
                None => !hit,
            }
        }),
{
    let tabids = get_tabids(lines);
    if contains_str(&tabids, "atlasapi") || contains_str(&tabids, "api") {
        Some(Reason::AtlasApiTab)
    } else {
        None
    }
}

/// A document needs the Atlas CLI topical tag when it declares both an
/// `atlascli` and a `cli` tab.  Unlike the API and UI checks, which accept
/// either of their two tokens, this check demands both; the asymmetry is
/// deliberate and is pinned by a test.
pub fn check_needs_atlas_cli_tag(lines: &Vec<String>) -> (r: Option<Reason>)
    ensures
        ({
            let t = spec_tabids(lines.deep_view());
            let hit = t.contains("atlascli"@) && t.contains("cli"@);
            match r {
                Some(x) => x is AtlasCliTab && hit,
                None => !hit,
            }
        }),
{
    let tabids = get_tabids(lines);
    if contains_str(&tabids, "atlascli") && contains_str(&tabids, "cli") {
        Some(Reason::AtlasCliTab)
    } else {
        None
    }
}

/// A document needs the Atlas UI topical tag when it declares an
/// `atlasui` or a `ui` tab: either token is enough.
pub fn check_needs_atlas_ui_tag(lines: &Vec<String>) -> (r: Option<Reason>)
    ensures
        ({
            let t = spec_tabids(lines.deep_view());
            let hit = t.contains("atlasui"@) || t.contains("ui"@);
            match r {
                Some(x) => x is AtlasUiTab && hit,
                None => !hit,
            }
        }),
{
    let tabids = get_tabids(lines);
    if contains_str(&tabids, "atlasui") || contains_str(&tabids, "ui") {
        Some(Reason::AtlasUiTab)
    } else {
        None
    }
}

/// A document with Java tabs needs a Java tag naming the API flavors it
/// shows: both, only the synchronous one, or only the asynchronous one.
pub fn check_needs_java_tag(lines: &Vec<String>) -> (r: Option<Reason>)
    ensures
        ({
            let t = spec_tabids(lines.deep_view());
            let s = t.contains("java-sync"@);
            let a = t.contains("java-async"@);
            if s && a {
                r matches Some(x) && x matches Reason::Java(y) && y is Both
            } else if s {
                r matches Some(x) && x matches Reason::Java(y) && y is Sync
            } else if a {
                r matches Some(x) && x matches Reason::Java(y) && y is Async
            } else {
                r is None
            }
        }),
{
    let tabids = get_tabids(lines);
    let s = contains_str(&tabids, "java-sync");
    let a = contains_str(&tabids, "java-async");
    if s && a {
        Some(Reason::Java(JavaSyncness::Both))
    } else if s {
        Some(Reason::Java(JavaSyncness::Sync))
    } else if a {
        Some(Reason::Java(JavaSyncness::Async))
    } else {
        None
    }
}

/// Index of the first match string held by the line, searching `ss` from
/// position `j`.
pub open spec fn first_string_in_line(l: Seq<char>, ss: Seq<Seq<char>>, j: int) -> Option<int>
    decreases ss.len() - j,
{
    if j < 0 || j >= ss.len() {
        None
    } else if contains_sub(l, ss[j]) {
        Some(j)
    } else {
        first_string_in_line(l, ss, j + 1)
    }
}

/// The first (line, match string) pair, lines searched in document order
/// and the match strings in list order within each line.
pub open spec fn first_code_example_from(ls: Seq<Seq<char>>, ss: Seq<Seq<char>>, i: int) -> Option<
    (int, int),
>
    decreases ls.len() - i,
{
    if i < 0 || i >= ls.len() {
        None
    } else {
        match first_string_in_line(ls[i], ss, 0) {
            Some(j) => Some((i, j)),
            None => first_code_example_from(ls, ss, i + 1),
        }
    }
}

/// The first (line, match string) pair of the document, if any.
pub open spec fn first_code_example(ls: Seq<Seq<char>>, ss: Seq<Seq<char>>) -> Option<(int, int)> {
    first_code_example_from(ls, ss, 0)
}

/// A document needs the code-example tag when any of its lines holds any
/// of the match strings; the reason records the matched string.  Fragment
/// documents never receive this reason directly.
#[verifier::loop_isolation(false)]
pub fn check_needs_code_example_tag(path: &str, strings: &Vec<String>, lines: &Vec<String>) -> (r:
    Option<Reason>)
    ensures
        ({
            let ld = lines.deep_view();
            let sd = strings.deep_view();
            if contains_sub(path@, "/includes/"@) {
                r is None
            } else {
                match first_code_example(ld, sd) {
                    Some(p) => r matches Some(x) && x matches Reason::CodeExample(m) && m@ == sd[
                        p.1
                    ],
                    None => r is None,
                }
            }
        }),
{
    if contains(path, "/includes/") {
        return None;
    }
    let ghost ld = lines.deep_view();
    let ghost sd = strings.deep_view();
    let mut i: usize = 0;
    while i < lines.len()
        invariant
            0 <= i <= lines.len(),
            ld.len() == lines.len(),
            sd.len() == strings.len(),
            first_code_example(ld, sd) == first_code_example_from(ld, sd, i as int),
        decreases lines.len() - i,
    {
        proof {
            assert(ld[i as int] == lines@[i as int]@);
        }
        let mut j: usize = 0;
        while j < strings.len()
            invariant
                0 <= j <= strings.len(),
                first_string_in_line(ld[i as int], sd, 0) == first_string_in_line(
                    ld[i as int],
                    sd,
                    j as int,
                ),
            decreases strings.len() - j,
        {
            proof {
                assert(sd[j as int] == strings@[j as int]@);
            }
            if contains(lines[i].as_str(), strings[j].as_str()) {
                return Some(Reason::CodeExample(strings[j].clone()));
            }
            j += 1;
        }
        i += 1;
    }
    None
}

/// A line carries a `:values:` marker that starts after at least one
/// leading character.
pub open spec fn has_values_marker(l: Seq<char>) -> bool {
    exists|j: int| 1 <= j && match_at(l, ":values:"@, j)
}

/// Whether the line carries a `:values:` marker after its first
/// character.
pub fn values_marker(l: &str) -> (r: bool)
    ensures
        r == has_values_marker(l@),
{
    let n = l.unicode_len();
    if n == 0 {
        proof {
            assert forall|j: int| 1 <= j implies !match_at(l@, ":values:"@, j) by {
                assert(j + ":values:"@.len() > 0);
            }
        }
        return false;
    }
    let tail = l.substring_char(1, n);
    let c = contains(tail, ":values:");
    proof {
        let p = ":values:"@;
        if c {
            let k = choose|k: int| match_at(tail@, p, k);
            assert(l@.subrange(k + 1, k + 1 + p.len() as int) =~= tail@.subrange(
                k,
                k + p.len() as int,
            ));
            assert(match_at(l@, p, k + 1));
        } else {
            assert forall|j: int| 1 <= j implies !match_at(l@, p, j) by {
                if match_at(l@, p, j) {
                    assert(tail@.subrange(j - 1, j - 1 + p.len() as int) =~= l@.subrange(
                        j,
                        j + p.len() as int,
                    ));
                    assert(match_at(tail@, p, j - 1));
                }
            }
        }
    }
    c
}

/// The three structurally significant lines of a facet block, for reading
/// its values, begin at line `i`: a header line holding `.. facet::`, a
/// name line ending with `:name: programming_language`, and a values line
/// with a `:values:` marker after its first character.
pub open spec fn facet_values_at(ls: Seq<Seq<char>>, i: int) -> bool {
    &&& 0 <= i
    &&& i + 2 < ls.len()
    &&& contains_sub(ls[i], ".. facet::"@)
    &&& ends_with(ls[i + 1], ":name: programming_language"@)
    &&& has_values_marker(ls[i + 2])
}

/// Index of the first facet block at or after line `i`, if any.
pub open spec fn first_facet_values_from(ls: Seq<Seq<char>>, i: int) -> Option<int>
    decreases ls.len() - i,
{
    if i < 0 || i >= ls.len() {
        None
    } else if facet_values_at(ls, i) {
        Some(i)
    } else {
        first_facet_values_from(ls, i + 1)
    }
}

/// Index of the first facet block of the document, if any.
pub open spec fn first_facet_values(ls: Seq<Seq<char>>) -> Option<int> {
    first_facet_values_from(ls, 0)
}

/// The languages named by the values line of the document's facet block,
/// if the document has one.  Unrecognized values contribute nothing, so
/// the set may be empty even when a block is present.
#[verifier::loop_isolation(false)]
pub fn get_pl_facet_values(lines: &Vec<String>) -> (r: Option<LangSet>)
    ensures
        match first_facet_values(lines.deep_view()) {
            None => r is None,
            Some(i) => r matches Some(s) && s.wf() && s@.to_set() == langs_of_tokens(
                spec_split_trim(
                    spec_segment_after(lines.deep_view()[i + 2], ":values:"@),
                    ',',
                ),
            ),
        },
{
    let ghost ld = lines.deep_view();
    let n = lines.len();
    let mut i: usize = 0;
    while i < n
        invariant
            0 <= i <= n,
            ld.len() == n,
            first_facet_values(ld) == first_facet_values_from(ld, i as int),
        decreases n - i,
    {
        proof {
            assert(ld[i as int] == lines@[i as int]@);
            if i + 2 < n {
                assert(ld[i + 1] == lines@[i + 1]@);
                assert(ld[i + 2] == lines@[i + 2]@);
            }
        }
        if n - i > 2 {
            let hit = contains(lines[i].as_str(), ".. facet::") && str_ends_with(
                lines[i + 1].as_str(),
                ":name: programming_language",
            ) && values_marker(lines[i + 2].as_str());
            if hit {
                let seg = segment_after(lines[i + 2].as_str(), ":values:");
                let toks = split_trim(seg, ',');
                let s = langset_of_tokens(&toks);
                return Some(s);
            }
        }
        i += 1;
    }
    None
}

/// A first (line, match string) pair exists exactly when some line holds
/// some match string.
pub proof fn lemma_code_example_exists(ls: Seq<Seq<char>>, ss: Seq<Seq<char>>)
    ensures
        first_code_example(ls, ss) is Some <==> exists|i: int, j: int|
            0 <= i < ls.len() && 0 <= j < ss.len() && contains_sub(#[trigger] ls[i], #[trigger] ss[j]),
{
    lemma_code_example_exists_from(ls, ss, 0);
}

proof fn lemma_string_in_line_exists(l: Seq<char>, ss: Seq<Seq<char>>, j: int)
    requires
        0 <= j,
    ensures
        first_string_in_line(l, ss, j) is Some <==> exists|q: int|
            j <= q < ss.len() && contains_sub(l, #[trigger] ss[q]),
    decreases ss.len() - j,
{
    if j >= ss.len() {
    } else if contains_sub(l, ss[j]) {
    } else {
        lemma_string_in_line_exists(l, ss, j + 1);
        if first_string_in_line(l, ss, j) is Some {
            let q = choose|q: int| j + 1 <= q < ss.len() && contains_sub(l, #[trigger] ss[q]);
        }
        if exists|q: int| j <= q < ss.len() && contains_sub(l, #[trigger] ss[q]) {
            let q = choose|q: int| j <= q < ss.len() && contains_sub(l, #[trigger] ss[q]);
            assert(q > j);
        }
    }
}

proof fn lemma_code_example_exists_from(ls: Seq<Seq<char>>, ss: Seq<Seq<char>>, i: int)
    requires
        0 <= i,
    ensures
        first_code_example_from(ls, ss, i) is Some <==> exists|p: int, j: int|
            i <= p < ls.len() && 0 <= j < ss.len() && contains_sub(#[trigger] ls[p], #[trigger] ss[j]),
    decreases ls.len() - i,
{
    if i >= ls.len() {
    } else {
        lemma_string_in_line_exists(ls[i], ss, 0);
        match first_string_in_line(ls[i], ss, 0) {
            Some(j) => {
                lemma_first_string_in_line_some(ls[i], ss, 0);
            },
            None => {
                lemma_code_example_exists_from(ls, ss, i + 1);
                if first_code_example_from(ls, ss, i) is Some {
                    let (p, j) = choose|p: int, j: int|
                        i + 1 <= p < ls.len() && 0 <= j < ss.len() && contains_sub(
                            #[trigger] ls[p],
                            #[trigger] ss[j],
                        );
                }
                if exists|p: int, j: int|
                    i <= p < ls.len() && 0 <= j < ss.len() && contains_sub(
                        #[trigger] ls[p],
                        #[trigger] ss[j],
                    ) {
                    let (p, j) = choose|p: int, j: int|
                        i <= p < ls.len() && 0 <= j < ss.len() && contains_sub(
                            #[trigger] ls[p],
                            #[trigger] ss[j],
                        );
                    if p == i {
                        assert(exists|q: int| 0 <= q < ss.len() && contains_sub(ls[i], #[trigger] ss[q]));
                    } else {
                        assert(first_code_example_from(ls, ss, i + 1) is Some);
                    }
                }
            },
        }
    }
}

proof fn lemma_first_string_in_line_some(l: Seq<char>, ss: Seq<Seq<char>>, j: int)
    requires
        0 <= j,
        first_string_in_line(l, ss, j) is Some,
    ensures
        exists|q: int| j <= q < ss.len() && contains_sub(l, #[trigger] ss[q]),
    decreases ss.len() - j,
{
    if j >= ss.len() {
    } else if contains_sub(l, ss[j]) {
    } else {
        lemma_first_string_in_line_some(l, ss, j + 1);
    }
}

/// Law: whether a document is flagged for the code-example tag does not
/// depend on the order of the match-string list: two lists holding the
/// same strings flag the same documents.  (The payload, the particular
/// matched string that is recorded, may differ between the two orders
/// when a document holds several match strings.)
pub proof fn lemma_code_example_order_independent(
    ls: Seq<Seq<char>>,
    ss1: Seq<Seq<char>>,
    ss2: Seq<Seq<char>>,
)
    requires
        forall|x: Seq<char>| ss1.contains(x) <==> ss2.contains(x),
    ensures
        first_code_example(ls, ss1) is Some <==> first_code_example(ls, ss2) is Some,
{
    lemma_code_example_exists(ls, ss1);
    lemma_code_example_exists(ls, ss2);
    if first_code_example(ls, ss1) is Some {
        let (p, j) = choose|p: int, j: int|
            0 <= p < ls.len() && 0 <= j < ss1.len() && contains_sub(
                #[trigger] ls[p],
                #[trigger] ss1[j],
            );
        assert(ss1.contains(ss1[j]));
        assert(ss2.contains(ss1[j]));
        let q = choose|q: int| 0 <= q < ss2.len() && ss2[q] == ss1[j];
        assert(contains_sub(ls[p], ss2[q]));
    }
    if first_code_example(ls, ss2) is Some {
        let (p, j) = choose|p: int, j: int|
            0 <= p < ls.len() && 0 <= j < ss2.len() && contains_sub(
                #[trigger] ls[p],
                #[trigger] ss2[j],
            );
        assert(ss2.contains(ss2[j]));
        assert(ss1.contains(ss2[j]));
        let q = choose|q: int| 0 <= q < ss1.len() && ss1[q] == ss2[j];
        assert(contains_sub(ls[p], ss1[q]));
    }
}

} // verus!
