use codetagger::mutate::{
    append_keyword, count_lines_containing, insert_facet_block, insert_keyword_block,
    remove_facet_block, tag_with_keyword,
};
use codetagger::types::{LangSet, Language};

fn lines(v: &[&str]) -> Vec<String> {
    v.iter().map(|s| s.to_string()).collect()
}

#[test]
fn append_keyword_adds_with_comma() {
    let c = lines(&[".. meta::", "   :keywords: driver, tutorial", "", "Body."]);
    let r = append_keyword(&c, "code example");
    assert_eq!(r[1], "   :keywords: driver, tutorial, code example");
    assert_eq!(r[0], ".. meta::");
    assert_eq!(r[2], "");
    assert_eq!(r[3], "Body.");
}

#[test]
fn append_keyword_twice_is_once() {
    let c = lines(&["   :keywords: driver", "Body."]);
    let once = append_keyword(&c, "compass");
    let twice = append_keyword(&once, "compass");
    assert_eq!(once, twice);
    assert_eq!(once[0], "   :keywords: driver, compass");
}

#[test]
fn append_keyword_present_is_noop() {
    let c = lines(&["   :keywords: driver, compass"]);
    let r = append_keyword(&c, "compass");
    assert_eq!(r, c);
}

#[test]
fn append_keyword_no_block_is_noop() {
    let c = lines(&["Just text.", "More text."]);
    let r = append_keyword(&c, "compass");
    assert_eq!(r, c);
}

#[test]
fn append_keyword_preserves_dollar() {
    let c = lines(&[":keywords: $vectorSearch"]);
    let r = append_keyword(&c, "code example");
    assert_eq!(r[0], ":keywords: $vectorSearch, code example");
    assert!(r[0].contains("$vectorSearch"));
}

#[test]
fn append_keyword_empty_list_uses_space() {
    let c = lines(&["   :keywords:"]);
    let r = append_keyword(&c, "code example");
    assert_eq!(r[0], "   :keywords: code example");
}

#[test]
fn insert_keyword_block_prepends() {
    let c = lines(&["Body."]);
    let r = insert_keyword_block(&c);
    assert_eq!(r, lines(&[".. meta::", "   :keywords:", "", "Body."]));
}

#[test]
fn insert_keyword_block_twice_is_once() {
    let c = lines(&["Body."]);
    let once = insert_keyword_block(&c);
    let twice = insert_keyword_block(&once);
    assert_eq!(once, twice);
}

#[test]
fn tag_with_keyword_fresh_document() {
    let c = lines(&["Original first line.", "Second."]);
    let r = tag_with_keyword("repo/source/page.rst", &c, "code example");
    assert_eq!(
        r,
        lines(&[
            ".. meta::",
            "   :keywords: code example",
            "",
            "Original first line.",
            "Second.",
        ])
    );
}

#[test]
fn tag_with_keyword_existing_list() {
    let c = lines(&["   :keywords: driver, tutorial", "Body."]);
    let r = tag_with_keyword("repo/source/page.rst", &c, "code example");
    assert_eq!(r[0], "   :keywords: driver, tutorial, code example");
}

#[test]
fn tag_with_keyword_skips_fragments() {
    let c = lines(&["Fragment text."]);
    let r = tag_with_keyword("repo/source/includes/frag.rst", &c, "code example");
    assert_eq!(r, c);
}

#[test]
fn insert_facet_block_prepends_canonical_order() {
    let mut langs = LangSet::new();
    langs.insert(Language::Python);
    langs.insert(Language::Go);
    let c = lines(&["Body."]);
    let r = insert_facet_block(&c, &langs);
    assert_eq!(
        r,
        lines(&[
            ".. facet::",
            "   :name: programming_language",
            "   :values: go, python",
            "",
            "Body.",
        ])
    );
}

#[test]
fn insert_facet_block_skips_when_present() {
    let mut langs = LangSet::new();
    langs.insert(Language::Rust);
    let c = lines(&[
        ".. facet::",
        "   :name: programming_language",
        "   :values: go",
        "",
        "Body.",
    ]);
    let r = insert_facet_block(&c, &langs);
    assert_eq!(r, c);
}

#[test]
fn facet_round_trip_restores_content() {
    let mut langs = LangSet::new();
    langs.insert(Language::Go);
    langs.insert(Language::Python);
    let c = lines(&["Title", "=====", "Body text."]);
    let r = remove_facet_block(&insert_facet_block(&c, &langs));
    assert_eq!(r, c);
}

#[test]
fn remove_facet_block_absent_is_noop() {
    let c = lines(&["No facet here.", ""]);
    let r = remove_facet_block(&c);
    assert_eq!(r, c);
}

#[test]
fn remove_facet_block_eats_trailing_blank_lines() {
    let c = lines(&[
        ".. facet::",
        "   :name: programming_language",
        "   :values: go",
        "",
        "",
        "Body.",
    ]);
    let r = remove_facet_block(&c);
    assert_eq!(r, lines(&["Body."]));
}

#[test]
fn count_lines_counts_every_holding_line() {
    let c = lines(&[
        "   :name: programming_language",
        "text",
        "   :name: programming_language",
    ]);
    assert_eq!(count_lines_containing(&c, "programming_language"), 2);
    assert_eq!(count_lines_containing(&c, "text"), 1);
    assert_eq!(count_lines_containing(&c, "absent"), 0);
}

#[test]
fn mutations_on_empty_content() {
    let empty: Vec<String> = Vec::new();
    assert_eq!(append_keyword(&empty, "compass"), empty);
    assert_eq!(remove_facet_block(&empty), empty);
    assert_eq!(
        insert_keyword_block(&empty),
        lines(&[".. meta::", "   :keywords:", ""])
    );
    let mut langs = LangSet::new();
    langs.insert(Language::Go);
    let r = remove_facet_block(&insert_facet_block(&empty, &langs));
    assert_eq!(r, empty);
}

#[test]
fn insert_facet_block_leaves_one_name_line() {
    let mut langs = LangSet::new();
    langs.insert(Language::Go);
    let c = lines(&["Title", "Body."]);
    let once = insert_facet_block(&c, &langs);
    assert_eq!(count_lines_containing(&once, "programming_language"), 1);
    let twice = insert_facet_block(&once, &langs);
    assert_eq!(count_lines_containing(&twice, "programming_language"), 1);
}
