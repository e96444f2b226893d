//! The include-graph resolver: which documents transitively embed a
//! reusable fragment.
//!
//! A document "includes" a file when one of its lines holds the file's
//! root-relative path.  A fragment (a file under the includes directory)
//! that includes another fragment passes the relation on, so the resolver
//! computes a closure, guarded by a visited set so that a cyclic include
//! graph cannot make it loop forever.

use vstd::prelude::*;
use crate::text::{
    contains_sub, spec_segment_after, seq_lt, lemma_seq_lt_trichotomy, lemma_seq_lt_trans,
    contains, segment_after, str_eq, str_lt,
};
use crate::meta::{some_line_contains, has_tab_trigger, lines_contain, contains_str};

verus! {

/// A document of the tree: its path and its lines.
pub struct Doc {
    /// Where the document lives in the tree.
    pub path: String,
    /// The document's content, line by line.
    pub lines: Vec<String>,
}

/// The root-relative path of a file under the source tree: the text
/// between the first `/source/` of its path and the next (or the end).
pub open spec fn spec_rel_path(p: Seq<char>) -> Seq<char> {
    spec_segment_after(p, "/source/"@)
}

/// The root-relative path of a file under the source tree.
pub fn rel_path(path: &str) -> (r: String)
    requires
        contains_sub(path@, "/source/"@),
    ensures
        r@ == spec_rel_path(path@),
{
    segment_after(path, "/source/").to_owned()
}

/// Whether a path names a reusable fragment: a file under the includes
/// directory.
pub open spec fn is_fragment_path(p: Seq<char>) -> bool {
    contains_sub(p, "/includes/"@)
}

/// A fragment document that shows tabbed code examples: it lies under
/// the source tree's includes directory and some line holds one of the
/// two tab-directive spellings.
pub open spec fn include_has_code_tabs(d: Doc) -> bool {
    &&& contains_sub(d.path@, "/source/"@)
    &&& contains_sub(d.path@, "/includes/"@)
    &&& has_tab_trigger(d.lines.deep_view())
}

/// The root-relative paths of the fragments with code tabs, in document
/// order, scanning the documents at or after `i`.
pub open spec fn spec_includes_with_code_tabs_from(docs: Seq<Doc>, i: int) -> Seq<Seq<char>>
    decreases docs.len() - i,
{
    if i < 0 || i >= docs.len() {
        Seq::empty()
    } else {
        let rest = spec_includes_with_code_tabs_from(docs, i + 1);
        if include_has_code_tabs(docs[i]) {
            seq![spec_rel_path(docs[i].path@)] + rest
        } else {
            rest
        }
    }
}

/// The root-relative paths of every fragment that shows tabbed code
/// examples, in document order.  Documents that embed such a fragment
/// carry its code examples, so these paths join the code-example match
/// strings.
#[verifier::loop_isolation(false)]
pub fn get_includes_with_code_tabs(docs: &Vec<Doc>) -> (r: Vec<String>)
    ensures
        r.deep_view() == spec_includes_with_code_tabs_from(docs@, 0),
{
    let ghost dd = docs@;
    let mut out: Vec<String> = Vec::new();
    let mut i: usize = 0;
    proof {
        assert(out.deep_view() + spec_includes_with_code_tabs_from(dd, 0)
            =~= spec_includes_with_code_tabs_from(dd, 0));
    }
    while i < docs.len()
        invariant
            0 <= i <= docs.len(),
            out.deep_view() + spec_includes_with_code_tabs_from(dd, i as int)
                == spec_includes_with_code_tabs_from(dd, 0),
        decreases docs.len() - i,
    {
        let d = &docs[i];
        let ghost pre = out.deep_view();
        let hit = contains(d.path.as_str(), "/source/") && contains(d.path.as_str(), "/includes/")
            && (lines_contain(&d.lines, "tabs-selector:: drivers") || lines_contain(
            &d.lines,
            "tabs-drivers::",
        ));
        if hit {
            out.push(rel_path(d.path.as_str()));
            proof {
                assert(out.deep_view() =~= pre.push(spec_rel_path(dd[i as int].path@)));
                assert(out.deep_view() + spec_includes_with_code_tabs_from(dd, i + 1) =~= pre
                    + spec_includes_with_code_tabs_from(dd, i as int));
            }
        }
        i += 1;
    }
    out
}

/// Document `d` directly includes the file at path `target`: `d` lies
/// under the source tree and one of its lines holds the target's
/// root-relative path.
pub open spec fn doc_includes(d: Doc, target: Seq<char>) -> bool {
    &&& contains_sub(d.path@, "/source/"@)
    &&& some_line_contains(d.lines.deep_view(), spec_rel_path(target))
}

/// Some document with path `p` directly includes the file at `target`.
pub open spec fn includer_doc(docs: Seq<Doc>, target: Seq<char>, p: Seq<char>) -> bool {
    exists|d: int|
        0 <= d < docs.len() && docs[d].path@ == p && #[trigger] doc_includes(docs[d], target)
}

/// A chain of include steps: each entry after the first is the path of a
/// document that directly includes the entry before it, and every entry
/// strictly between the first and the last is a fragment path (only
/// fragments pass the relation on).
pub open spec fn include_chain(docs: Seq<Doc>, chain: Seq<Seq<char>>) -> bool {
    &&& forall|i: int|
        0 <= i < chain.len() - 1 ==> includer_doc(docs, #[trigger] chain[i], chain[i + 1])
    &&& forall|i: int| 1 <= i < chain.len() - 1 ==> is_fragment_path(#[trigger] chain[i])
}

/// Path `p` includes the file at `t0`, directly or through a chain of
/// fragments.
pub open spec fn is_includer(docs: Seq<Doc>, t0: Seq<char>, p: Seq<char>) -> bool {
    exists|chain: Seq<Seq<char>>|
        {
            &&& #[trigger] include_chain(docs, chain)
            &&& chain.len() >= 2
            &&& chain[0] == t0
            &&& chain.last() == p
        }
}

/// A direct includer of `t0` is an includer.
proof fn lemma_includer_base(docs: Seq<Doc>, t0: Seq<char>, p: Seq<char>)
    requires
        includer_doc(docs, t0, p),
    ensures
        is_includer(docs, t0, p),
{
    let chain = seq![t0, p];
    assert(chain.last() == p);
    assert(include_chain(docs, chain)) by {
        assert forall|i: int|
            0 <= i < chain.len() - 1 implies includer_doc(docs, #[trigger] chain[i], chain[i + 1]) by {
            assert(i == 0);
            assert(chain[0] == t0 && chain[1] == p);
        }
    }
}

/// A direct includer of a fragment that is itself an includer of `t0` is
/// an includer of `t0`.
proof fn lemma_includer_step(docs: Seq<Doc>, t0: Seq<char>, q: Seq<char>, p: Seq<char>)
    requires
        is_includer(docs, t0, q),
        is_fragment_path(q),
        includer_doc(docs, q, p),
    ensures
        is_includer(docs, t0, p),
{
    let chain0 = choose|chain: Seq<Seq<char>>|
        {
            &&& #[trigger] include_chain(docs, chain)
            &&& chain.len() >= 2
            &&& chain[0] == t0
            &&& chain.last() == q
        };
    let chain = chain0.push(p);
    assert(chain[0] == t0);
    assert(chain.last() == p);
    assert(include_chain(docs, chain)) by {
        assert forall|i: int|
            0 <= i < chain.len() - 1 implies includer_doc(docs, #[trigger] chain[i], chain[i + 1]) by {
            if i < chain0.len() - 1 {
                assert(chain[i] == chain0[i]);
                assert(chain[i + 1] == chain0[i + 1]);
                assert(includer_doc(docs, chain0[i], chain0[i + 1]));
            } else {
                assert(i == chain0.len() - 1);
                assert(chain[i] == chain0.last());
                assert(chain[i + 1] == p);
            }
        }
        assert forall|i: int|
            1 <= i < chain.len() - 1 implies is_fragment_path(#[trigger] chain[i]) by {
            if i < chain0.len() - 1 {
                assert(chain[i] == chain0[i]);
            } else {
                assert(i == chain0.len() - 1);
                assert(chain[i] == chain0.last());
                assert(chain0.last() == q);
            }
        }
    }
}

/// A strictly ascending sequence of strings: sorted, without duplicates.
pub open spec fn sorted_strings(s: Seq<Seq<char>>) -> bool {
    forall|i: int, j: int| 0 <= i < j < s.len() ==> seq_lt(s[i], s[j])
}

/// Insert `s` into a sorted vector of strings, keeping it sorted and
/// without duplicates.
#[verifier::loop_isolation(false)]
fn insert_sorted(v: &mut Vec<String>, s: &String)
    requires
        sorted_strings(old(v).deep_view()),
    ensures
        sorted_strings(final(v).deep_view()),
        final(v).deep_view().to_set() == old(v).deep_view().to_set().insert(s@),
{
    let ghost vd = v.deep_view();
    let mut i: usize = 0;
    while i < v.len() && str_lt(v[i].as_str(), s.as_str())
        invariant
            0 <= i <= v.len(),
            vd.len() == v.len(),
            vd == v.deep_view(),
            forall|k: int| 0 <= k < i ==> seq_lt(vd[k], s@),
        decreases v.len() - i,
    {
        proof {
            assert(vd[i as int] == v@[i as int]@);
        }
        i += 1;
    }
    proof {
        if i < vd.len() {
            assert(vd[i as int] == v@[i as int]@);
        }
    }
    if i < v.len() && str_eq(v[i].as_str(), s.as_str()) {
        proof {
            assert(vd[i as int] == s@);
            assert(vd.contains(s@));
            assert(v.deep_view().to_set() =~= vd.to_set().insert(s@));
        }
        return ;
    }
    proof {
        if i < vd.len() {
            lemma_seq_lt_trichotomy(vd[i as int], s@);
            assert(seq_lt(s@, vd[i as int]));
        }
    }
    let ghost pre = vd;
    v.insert(i, s.clone());
    proof {
        assert(v.deep_view() =~= pre.insert(i as int, s@));
        let nd = v.deep_view();
        assert forall|p: int, q: int| 0 <= p < q < nd.len() implies seq_lt(nd[p], nd[q]) by {
            if q < i {
                assert(nd[p] == pre[p] && nd[q] == pre[q]);
            } else if p > i {
                assert(nd[p] == pre[p - 1] && nd[q] == pre[q - 1]);
            } else if p < i && q == i {
                assert(nd[p] == pre[p]);
            } else if p == i {
                assert(nd[q] == pre[q - 1]);
                assert(q - 1 >= i);
                if q - 1 == i {
                    assert(seq_lt(s@, pre[i as int]));
                } else {
                    assert(seq_lt(s@, pre[i as int]));
                    assert(seq_lt(pre[i as int], pre[q - 1]));
                    lemma_seq_lt_trans(s@, pre[i as int], pre[q - 1]);
                }
            } else {
                assert(p < i && q > i);
                assert(nd[p] == pre[p] && nd[q] == pre[q - 1]);
                assert(p < q - 1);
            }
        }
        assert(nd.to_set() =~= pre.to_set().insert(s@)) by {
            assert forall|x: Seq<char>| nd.to_set().contains(x) implies pre.to_set().insert(
                s@,
            ).contains(x) by {
                let idx = choose|idx: int| 0 <= idx < nd.len() && nd[idx] == x;
                if idx < i {
                    assert(pre[idx] == x);
                } else if idx > i {
                    assert(pre[idx - 1] == x);
                }
            }
            assert forall|x: Seq<char>|
                pre.to_set().insert(s@).contains(x) implies nd.to_set().contains(x) by {
                if pre.contains(x) {
                    let idx = choose|idx: int| 0 <= idx < pre.len() && pre[idx] == x;
                    if idx < i {
                        assert(nd[idx] == x);
                    } else {
                        assert(nd[idx + 1] == x);
                    }
                } else {
                    assert(nd[i as int] == s@);
                }
            }
        }
    }
}


/// A visited set of distinct paths, each the target path or a document
/// path, cannot outgrow the document count by more than one.
proof fn lemma_visited_bound(vd: Seq<Seq<char>>, docs: Seq<Doc>, t0: Seq<char>)
    requires
        vd.no_duplicates(),
        forall|q: int|
            0 <= q < vd.len() ==> vd[q] == t0 || exists|d: int|
                0 <= d < docs.len() && docs[d].path@ == #[trigger] vd[q],
    ensures
        vd.len() <= docs.len() + 1,
{
    broadcast use vstd::seq_lib::seq_to_set_is_finite;

    let paths = docs.map_values(|d: Doc| d.path@);
    vd.unique_seq_to_set();
    paths.lemma_cardinality_of_set();
    let big = paths.to_set().insert(t0);
    assert(vd.to_set().subset_of(big)) by {
        assert forall|x: Seq<char>| vd.to_set().contains(x) implies big.contains(x) by {
            let q = choose|q: int| 0 <= q < vd.len() && vd[q] == x;
            if x != t0 {
                let d = choose|d: int| 0 <= d < docs.len() && docs[d].path@ == vd[q];
                assert(paths[d] == x);
                assert(paths.contains(x));
                assert(paths.to_set().contains(x));
            }
        }
    }
    vstd::set_lib::lemma_len_subset(vd.to_set(), big);
    assert(big.len() <= paths.to_set().len() + 1);
}

/// Once every visited target has had its direct includers collected,
/// the last element of any include chain out of a visited target stands
/// in the result.
proof fn lemma_closure_complete(
    docs: Seq<Doc>,
    t0: Seq<char>,
    vd: Seq<Seq<char>>,
    rd: Seq<Seq<char>>,
    chain: Seq<Seq<char>>,
)
    requires
        vd.contains(t0),
        forall|x: Seq<char>, d: int|
            vd.contains(x) && 0 <= d < docs.len() && #[trigger] doc_includes(docs[d], x)
                ==> rd.contains(docs[d].path@) && (is_fragment_path(docs[d].path@) ==> vd.contains(
                docs[d].path@,
            )),
        forall|x: Seq<char>| rd.contains(x) && #[trigger] is_fragment_path(x) ==> vd.contains(x),
        include_chain(docs, chain),
        chain.len() >= 2,
        chain[0] == t0,
    ensures
        rd.contains(chain.last()),
    decreases chain.len(),
{
    if chain.len() == 2 {
        assert(includer_doc(docs, chain[0], chain[1]));
        let d = choose|d: int|
            0 <= d < docs.len() && docs[d].path@ == chain[1] && #[trigger] doc_includes(
                docs[d],
                chain[0],
            );
        assert(rd.contains(chain[1]));
    } else {
        let pre = chain.drop_last();
        assert(include_chain(docs, pre)) by {
            assert forall|i: int|
                0 <= i < pre.len() - 1 implies includer_doc(docs, #[trigger] pre[i], pre[i + 1]) by {
                assert(pre[i] == chain[i]);
                assert(pre[i + 1] == chain[i + 1]);
            }
            assert forall|i: int|
                1 <= i < pre.len() - 1 implies is_fragment_path(#[trigger] pre[i]) by {
                assert(pre[i] == chain[i]);
            }
        }
        assert(pre[0] == chain[0]);
        lemma_closure_complete(docs, t0, vd, rd, pre);
        let q = pre.last();
        assert(q == chain[chain.len() - 2]);
        assert(rd.contains(q));
        assert(is_fragment_path(chain[chain.len() - 2]));
        assert(vd.contains(q));
        assert(includer_doc(docs, chain[chain.len() - 2], chain[chain.len() - 1]));
        let d = choose|d: int|
            0 <= d < docs.len() && docs[d].path@ == chain[chain.len() - 1]
                && #[trigger] doc_includes(docs[d], chain[chain.len() - 2]);
        assert(rd.contains(chain.last()));
    }
}

/// Every document that includes the file at `path`, directly or through
/// a chain of fragments: exactly the paths that `is_includer` admits, in
/// ascending order without duplicates.  A cyclic include graph cannot
/// make the search loop: a fragment is followed only the first time it
/// is seen, so the visited set grows with every recursion and is bounded
/// by the document count.
#[verifier::loop_isolation(false)]
#[verifier::rlimit(100)]
pub fn get_files_that_include_this_file(path: &str, docs: &Vec<Doc>) -> (r: Vec<String>)
    requires
        contains_sub(path@, "/source/"@),
    ensures
        sorted_strings(r.deep_view()),
        forall|p: Seq<char>|
            #[trigger] r.deep_view().contains(p) <==> is_includer(docs@, path@, p),
{
    let ghost dd = docs@;
    let ghost t0 = path@;
    let mut result: Vec<String> = Vec::new();
    let mut visited: Vec<String> = Vec::new();
    let mut pending: Vec<String> = Vec::new();
    visited.push(path.to_owned());
    pending.push(path.to_owned());
    proof {
        assert(visited.deep_view() =~= seq![t0]);
        assert(pending.deep_view() =~= seq![t0]);
        assert(visited.deep_view()[0] == t0);
        assert(visited.deep_view().no_duplicates());
        assert(pending.deep_view().no_duplicates());
    }
    while pending.len() > 0
        invariant
            forall|x: Seq<char>|
                #[trigger] pending.deep_view().contains(x) ==> visited.deep_view().contains(x),
            pending.deep_view().no_duplicates(),
            visited.deep_view().no_duplicates(),
            visited.deep_view().len() <= dd.len() + 1,
            visited.deep_view().contains(t0),
            forall|q: int|
                0 <= q < visited.deep_view().len() ==> contains_sub(
                    #[trigger] visited.deep_view()[q],
                    "/source/"@,
                ),
            forall|q: int|
                0 <= q < visited.deep_view().len() ==> #[trigger] visited.deep_view()[q] == t0 || (
                is_fragment_path(visited.deep_view()[q]) && is_includer(
                    dd,
                    t0,
                    visited.deep_view()[q],
                ) && exists|d: int|
                    0 <= d < dd.len() && dd[d].path@ == visited.deep_view()[q]),
            forall|p: Seq<char>|
                #[trigger] result.deep_view().contains(p) ==> is_includer(dd, t0, p),
            forall|p: Seq<char>|
                result.deep_view().contains(p) && #[trigger] is_fragment_path(p)
                    ==> visited.deep_view().contains(p),
            sorted_strings(result.deep_view()),
            forall|x: Seq<char>, d: int|
                visited.deep_view().contains(x) && !pending.deep_view().contains(x) && 0 <= d
                    < dd.len() && #[trigger] doc_includes(dd[d], x) ==> result.deep_view().contains(
                    dd[d].path@,
                ) && (is_fragment_path(dd[d].path@) ==> visited.deep_view().contains(dd[d].path@)),
        decreases dd.len() + 1 - visited.deep_view().len(), pending.deep_view().len(),
    {
        let ghost pend_pre = pending.deep_view();
        let ghost vis_at_pop = visited.deep_view();
        let t = match pending.pop() {
            Some(t) => t,
            None => {
                assert(false);
                return result;
            },
        };
        proof {
            assert(pend_pre[pend_pre.len() - 1] == t@);
            assert(pend_pre.contains(t@));
            assert(visited.deep_view().contains(t@));
            assert(pending.deep_view() =~= pend_pre.drop_last());
            assert forall|x: Seq<char>|
                #[trigger] pending.deep_view().contains(x) implies visited.deep_view().contains(
                x,
            ) by {
                let jj = choose|jj: int|
                    0 <= jj < pending.deep_view().len() && pending.deep_view()[jj] == x;
                assert(pend_pre[jj] == x);
                assert(pend_pre.contains(x));
            }
            assert(!pending.deep_view().contains(t@)) by {
                if pending.deep_view().contains(t@) {
                    let jj = choose|jj: int|
                        0 <= jj < pending.deep_view().len() && pending.deep_view()[jj] == t@;
                    assert(pend_pre[jj] == t@);
                    assert(pend_pre[pend_pre.len() - 1] == t@);
                }
            }
            assert(pending.deep_view().no_duplicates()) by {
                assert forall|a: int, b: int|
                    0 <= a < b < pending.deep_view().len() implies pending.deep_view()[a]
                    != pending.deep_view()[b] by {
                    assert(pend_pre[a] == pending.deep_view()[a]);
                    assert(pend_pre[b] == pending.deep_view()[b]);
                }
            }
        }
        let rp = rel_path(t.as_str());
        let ghost t_ = t@;
        proof {
            assert forall|x: Seq<char>, d: int|
                visited.deep_view().contains(x) && !pending.deep_view().contains(x) && x != t_ && 0
                    <= d < dd.len() && #[trigger] doc_includes(
                dd[d],
                x,
            ) implies result.deep_view().contains(dd[d].path@) && (is_fragment_path(dd[d].path@)
                ==> visited.deep_view().contains(dd[d].path@)) by {
                assert(!pend_pre.contains(x)) by {
                    if pend_pre.contains(x) {
                        let jj = choose|jj: int| 0 <= jj < pend_pre.len() && pend_pre[jj] == x;
                        if jj < pend_pre.len() - 1 {
                            assert(pending.deep_view()[jj] == x);
                            assert(pending.deep_view().contains(x));
                        }
                    }
                }
            }
        }
        let ghost vis0_len = visited.deep_view().len();
        let ghost pend0_len = pending.deep_view().len();
        let mut k: usize = 0;
        while k < docs.len()
            invariant
                0 <= k <= dd.len(),
                rp@ == spec_rel_path(t_),
                visited.deep_view().contains(t_),
                t_ == t0 || (is_fragment_path(t_) && is_includer(dd, t0, t_)),
                forall|x: Seq<char>|
                    #[trigger] pending.deep_view().contains(x) ==> visited.deep_view().contains(x),
                !pending.deep_view().contains(t_),
                pending.deep_view().no_duplicates(),
                visited.deep_view().no_duplicates(),
                visited.deep_view().len() <= dd.len() + 1,
                visited.deep_view().len() >= vis0_len,
                pending.deep_view().len() - pend0_len == visited.deep_view().len() - vis0_len,
                visited.deep_view().contains(t0),
                forall|q: int|
                    0 <= q < visited.deep_view().len() ==> contains_sub(
                        #[trigger] visited.deep_view()[q],
                        "/source/"@,
                    ),
                forall|q: int|
                    0 <= q < visited.deep_view().len() ==> #[trigger] visited.deep_view()[q] == t0
                        || (is_fragment_path(visited.deep_view()[q]) && is_includer(
                        dd,
                        t0,
                        visited.deep_view()[q],
                    ) && exists|d: int|
                        0 <= d < dd.len() && dd[d].path@ == visited.deep_view()[q]),
                forall|p: Seq<char>|
                    #[trigger] result.deep_view().contains(p) ==> is_includer(dd, t0, p),
                forall|p: Seq<char>|
                    result.deep_view().contains(p) && #[trigger] is_fragment_path(p)
                        ==> visited.deep_view().contains(p),
                sorted_strings(result.deep_view()),
                forall|x: Seq<char>, d: int|
                    visited.deep_view().contains(x) && !pending.deep_view().contains(x) && x != t_
                        && 0 <= d < dd.len() && #[trigger] doc_includes(dd[d], x)
                        ==> result.deep_view().contains(dd[d].path@) && (is_fragment_path(
                        dd[d].path@,
                    ) ==> visited.deep_view().contains(dd[d].path@)),
                forall|d: int|
                    0 <= d < k && #[trigger] doc_includes(dd[d], t_)
                        ==> result.deep_view().contains(dd[d].path@) && (is_fragment_path(
                        dd[d].path@,
                    ) ==> visited.deep_view().contains(dd[d].path@)),
            decreases dd.len() - k,
        {
            let ghost vd0 = visited.deep_view();
            let ghost pd0 = pending.deep_view();
            let ghost rd0 = result.deep_view();
            let d = &docs[k];
            let hit = contains(d.path.as_str(), "/source/") && lines_contain(
                &d.lines,
                rp.as_str(),
            );
            if hit {
                proof {
                    assert(doc_includes(dd[k as int], t_));
                    assert(includer_doc(dd, t_, dd[k as int].path@));
                    if t_ == t0 {
                        lemma_includer_base(dd, t0, dd[k as int].path@);
                    } else {
                        lemma_includer_step(dd, t0, t_, dd[k as int].path@);
                    }
                    assert(is_includer(dd, t0, dd[k as int].path@));
                }
                insert_sorted(&mut result, &d.path);
                if contains(d.path.as_str(), "/includes/") {
                    if !contains_str(&visited, d.path.as_str()) {
                        proof {
                            assert(visited.deep_view().push(dd[k as int].path@).no_duplicates());
                            lemma_visited_bound(
                                visited.deep_view().push(dd[k as int].path@),
                                dd,
                                t0,
                            );
                        }
                        visited.push(d.path.clone());
                        pending.push(d.path.clone());
                        proof {
                            assert(visited.deep_view() =~= vd0.push(dd[k as int].path@));
                            assert(pending.deep_view() =~= pd0.push(dd[k as int].path@));
                        }
                    }
                }
            } else {
                proof {
                    assert(!doc_includes(dd[k as int], t_));
                }
            }
            proof {
                broadcast use vstd::seq_lib::lemma_seq_contains_after_push;

                let newp = dd[k as int].path@;
                let vd1 = visited.deep_view();
                let pd1 = pending.deep_view();
                let rd1 = result.deep_view();
                assert(vd1 == vd0 || vd1 == vd0.push(newp));
                assert(pd1 == pd0 || pd1 == pd0.push(newp));
                assert((vd1 == vd0) <==> (pd1 == pd0));
                assert forall|p: Seq<char>| vd0.contains(p) implies vd1.contains(p) by {}
                assert forall|p: Seq<char>| pd0.contains(p) implies pd1.contains(p) by {}
                assert forall|p: Seq<char>| #[trigger] rd0.contains(p) implies rd1.contains(p) by {
                    if rd1 != rd0 {
                        assert(rd1.to_set() == rd0.to_set().insert(newp));
                        assert(rd0.to_set().contains(p));
                        assert(rd1.to_set().contains(p));
                    }
                }
                if hit {
                    assert(rd1.to_set().contains(newp));
                    assert(rd1.contains(newp));
                }
                if vd1 != vd0 {
                    assert(vd1.contains(newp));
                    assert(pd1.contains(newp));
                    assert(newp != t_);
                    assert(!vd0.contains(newp));
                    assert(!pd0.contains(newp));
                    assert(pd1.no_duplicates()) by {
                        assert forall|a: int, b: int|
                            0 <= a < b < pd1.len() implies pd1[a] != pd1[b] by {
                            if b < pd0.len() {
                                assert(pd1[a] == pd0[a]);
                                assert(pd1[b] == pd0[b]);
                            } else {
                                assert(pd1[b] == newp);
                                assert(pd1[a] == pd0[a]);
                                assert(pd0.contains(pd0[a]));
                            }
                        }
                    }
                }
                // the pattern lines of the new visited element
                assert forall|q: int|
                    0 <= q < vd1.len() implies contains_sub(#[trigger] vd1[q], "/source/"@) by {
                    if vd1 != vd0 && q == vd0.len() {
                        assert(vd1[q] == newp);
                        assert(doc_includes(dd[k as int], t_));
                    } else {
                        assert(vd1[q] == vd0[q]);
                    }
                }
                assert forall|q: int|
                    0 <= q < vd1.len() implies #[trigger] vd1[q] == t0 || (is_fragment_path(
                    vd1[q],
                ) && is_includer(dd, t0, vd1[q]) && exists|dx: int|
                    0 <= dx < dd.len() && dd[dx].path@ == vd1[q]) by {
                    if vd1 != vd0 && q == vd0.len() {
                        assert(vd1[q] == newp);
                        assert(dd[k as int].path@ == newp);
                    } else {
                        assert(vd1[q] == vd0[q]);
                    }
                }
                // fragments in the result are visited
                assert forall|p: Seq<char>|
                    rd1.contains(p) && #[trigger] is_fragment_path(p) implies vd1.contains(p) by {
                    if hit && p == newp {
                        assert(vd1.contains(newp));
                    } else {
                        assert(rd0.contains(p)) by {
                            if rd1 != rd0 {
                                assert(rd1.to_set().contains(p));
                                assert(rd0.to_set().contains(p));
                            }
                        }
                        assert(vd0.contains(p));
                    }
                }
                // result elements are includers
                assert forall|p: Seq<char>| #[trigger] rd1.contains(p) implies is_includer(
                    dd,
                    t0,
                    p,
                ) by {
                    if rd1 != rd0 {
                        assert(rd1.to_set().contains(p));
                        if p != newp {
                            assert(rd0.to_set().contains(p));
                            assert(rd0.contains(p));
                        }
                    }
                }
                // the processed targets other than the current one stay closed
                assert forall|x: Seq<char>, dx: int|
                    vd1.contains(x) && !pd1.contains(x) && x != t_ && 0 <= dx < dd.len()
                        && #[trigger] doc_includes(dd[dx], x) implies rd1.contains(dd[dx].path@)
                    && (is_fragment_path(dd[dx].path@) ==> vd1.contains(dd[dx].path@)) by {
                    if vd0.contains(x) {
                        assert(!pd0.contains(x));
                        assert(rd0.contains(dd[dx].path@));
                        if is_fragment_path(dd[dx].path@) {
                            assert(vd0.contains(dd[dx].path@));
                        }
                    } else {
                        assert(vd1 != vd0);
                        assert(x == newp);
                        assert(pd1.contains(x));
                    }
                }
                // the current target is closed for every document scanned so far
                assert forall|dx: int|
                    0 <= dx < k + 1 && #[trigger] doc_includes(dd[dx], t_) implies rd1.contains(
                    dd[dx].path@,
                ) && (is_fragment_path(dd[dx].path@) ==> vd1.contains(dd[dx].path@)) by {
                    if dx < k {
                        assert(rd0.contains(dd[dx].path@));
                        if is_fragment_path(dd[dx].path@) {
                            assert(vd0.contains(dd[dx].path@));
                        }
                    } else {
                        assert(dx == k);
                        assert(hit);
                        assert(rd1.contains(newp));
                        if is_fragment_path(newp) {
                            assert(vd1.contains(newp));
                        }
                    }
                }
            }
            k += 1;
        }
    }
    proof {
        assert forall|p: Seq<char>|
            #[trigger] result.deep_view().contains(p) <==> is_includer(dd, t0, p) by {
            if is_includer(dd, t0, p) {
                let chain = choose|chain: Seq<Seq<char>>|
                    {
                        &&& #[trigger] include_chain(dd, chain)
                        &&& chain.len() >= 2
                        &&& chain[0] == t0
                        &&& chain.last() == p
                    };
                assert(pending.deep_view().len() == 0);
                assert forall|x: Seq<char>, d: int|
                    visited.deep_view().contains(x) && 0 <= d < dd.len()
                        && #[trigger] doc_includes(dd[d], x) implies result.deep_view().contains(
                    dd[d].path@,
                ) && (is_fragment_path(dd[d].path@) ==> visited.deep_view().contains(
                    dd[d].path@,
                )) by {
                    assert(!pending.deep_view().contains(x));
                }
                lemma_closure_complete(dd, t0, visited.deep_view(), result.deep_view(), chain);
            }
        }
    }
    result
}

} // verus!
