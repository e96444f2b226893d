//! The keyword-similarity report: keyword pairs whose spellings lie a
//! small edit distance apart, which usually means one of them is a typo
//! or an unintended variant of the other.

use vstd::prelude::*;
use crate::meta::contains_str;

verus! {

/// The largest edit distance at which two keywords count as similar.
pub const MAX_DIST: usize = 3;

/// The Levenshtein edit distance between two character sequences.
pub uninterp spec fn edit_distance_of(a: Seq<char>, b: Seq<char>) -> usize;

/// Relies on `edit_distance::edit_distance`: the Levenshtein distance
/// between the two strings, a function of their characters alone.
#[verifier::external_body]
fn keyword_distance(a: &str, b: &str) -> (d: usize)
    ensures
        d == edit_distance_of(a@, b@),
{
    edit_distance::edit_distance(a, b)
}

/// A distance in the similarity band: near enough to look like a
/// variant spelling, yet not zero, which would mean the same keyword.
pub open spec fn spec_similar_distance(d: usize) -> bool {
    1 <= d <= MAX_DIST
}

/// Whether a distance lies in the similarity band.
pub fn is_similar_distance(d: usize) -> (r: bool)
    ensures
        r == spec_similar_distance(d),
{
    1 <= d && d <= MAX_DIST
}

/// Two keywords whose edit distance lies in the similarity band.
pub open spec fn similar_pair(a: Seq<char>, b: Seq<char>) -> bool {
    spec_similar_distance(edit_distance_of(a, b))
}

/// The similar pairs with `a` on the left and a right side drawn from
/// `ks` at or after `j`, in list order.
pub open spec fn spec_similar_with(a: Seq<char>, ks: Seq<Seq<char>>, j: int) -> Seq<
    (Seq<char>, Seq<char>),
>
    decreases ks.len() - j,
{
    if j < 0 || j >= ks.len() {
        Seq::empty()
    } else {
        let rest = spec_similar_with(a, ks, j + 1);
        if similar_pair(a, ks[j]) {
            seq![(a, ks[j])] + rest
        } else {
            rest
        }
    }
}

/// Every ordered similar pair drawn from the keywords at or after `i`.
pub open spec fn spec_similar_from(ks: Seq<Seq<char>>, i: int) -> Seq<(Seq<char>, Seq<char>)>
    decreases ks.len() - i,
{
    if i < 0 || i >= ks.len() {
        Seq::empty()
    } else {
        spec_similar_with(ks[i], ks, 0) + spec_similar_from(ks, i + 1)
    }
}

/// Every ordered pair of keywords from the list whose edit distance lies
/// in the similarity band, in list order.
pub open spec fn spec_similar_pairs(ks: Seq<Seq<char>>) -> Seq<(Seq<char>, Seq<char>)> {
    spec_similar_from(ks, 0)
}

/// Every ordered pair of keywords from the list whose spellings lie a
/// small, non-zero edit distance apart.  A keyword paired with itself is
/// never reported: its distance is outside the band.
#[verifier::loop_isolation(false)]
pub fn similar_keyword_pairs(keywords: &Vec<String>) -> (pairs: Vec<(String, String)>)
    ensures
        pairs.deep_view() == spec_similar_pairs(keywords.deep_view()),
{
    let ghost kd = keywords.deep_view();
    let mut pairs: Vec<(String, String)> = Vec::new();
    let mut i: usize = 0;
    proof {
        assert(pairs.deep_view() + spec_similar_from(kd, 0) =~= spec_similar_pairs(kd));
    }
    while i < keywords.len()
        invariant
            0 <= i <= keywords.len(),
            kd.len() == keywords.len(),
            pairs.deep_view() + spec_similar_from(kd, i as int) == spec_similar_pairs(kd),
        decreases keywords.len() - i,
    {
        proof {
            assert(kd[i as int] == keywords@[i as int]@);
        }
        let mut j: usize = 0;
        proof {
            assert(pairs.deep_view() + spec_similar_with(kd[i as int], kd, 0)
                + spec_similar_from(kd, i + 1) =~= pairs.deep_view() + spec_similar_from(
                kd,
                i as int,
            ));
        }
        while j < keywords.len()
            invariant
                0 <= j <= keywords.len(),
                i < keywords.len(),
                kd.len() == keywords.len(),
                pairs.deep_view() + spec_similar_with(kd[i as int], kd, j as int)
                    + spec_similar_from(kd, i + 1) == spec_similar_pairs(kd),
            decreases keywords.len() - j,
        {
            proof {
                assert(kd[j as int] == keywords@[j as int]@);
            }
            let ghost pre = pairs.deep_view();
            let d = keyword_distance(keywords[i].as_str(), keywords[j].as_str());
            if is_similar_distance(d) {
                pairs.push((keywords[i].clone(), keywords[j].clone()));
                proof {
                    assert(pairs.deep_view() =~= pre.push((kd[i as int], kd[j as int])));
                    assert(pairs.deep_view() + spec_similar_with(kd[i as int], kd, j + 1) =~= pre
                        + spec_similar_with(kd[i as int], kd, j as int));
                }
            }
            j += 1;
        }
        i += 1;
    }
    proof {
        assert(pairs.deep_view() =~= pairs.deep_view() + spec_similar_from(kd, kd.len() as int));
    }
    pairs
}

/// The collection after adding each keyword of `ks` in turn, keeping
/// only first occurrences.
pub open spec fn spec_add_unique(acc: Seq<Seq<char>>, ks: Seq<Seq<char>>) -> Seq<Seq<char>>
    decreases ks.len(),
{
    if ks.len() == 0 {
        acc
    } else {
        spec_add_unique(
            if acc.contains(ks[0]) {
                acc
            } else {
                acc.push(ks[0])
            },
            ks.drop_first(),
        )
    }
}

/// Add each keyword of `ks` to the collection unless already present,
/// keeping the order in which keywords were first seen.
#[verifier::loop_isolation(false)]
pub fn add_keywords_unique(all: &mut Vec<String>, ks: &Vec<String>)
    ensures
        final(all).deep_view() == spec_add_unique(old(all).deep_view(), ks.deep_view()),
{
    let ghost ksd = ks.deep_view();
    let mut i: usize = 0;
    proof {
        assert(ksd.skip(0) =~= ksd);
    }
    while i < ks.len()
        invariant
            0 <= i <= ks.len(),
            ksd.len() == ks.len(),
            spec_add_unique(all.deep_view(), ksd.skip(i as int)) == spec_add_unique(
                old(all).deep_view(),
                ksd,
            ),
        decreases ks.len() - i,
    {
        proof {
            assert(ksd[i as int] == ks@[i as int]@);
            assert(ksd.skip(i as int)[0] == ksd[i as int]);
            assert(ksd.skip(i as int).drop_first() =~= ksd.skip(i + 1));
        }
        let ghost pre = all.deep_view();
        if !contains_str(all, ks[i].as_str()) {
            all.push(ks[i].clone());
            proof {
                assert(all.deep_view() =~= pre.push(ksd[i as int]));
            }
        }
        i += 1;
    }
    proof {
        assert(ksd.skip(ksd.len() as int) =~= Seq::<Seq<char>>::empty());
    }
}

} // verus!
