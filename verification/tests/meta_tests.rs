use codetagger::meta::{
    check_needs_atlas_api_tag, check_needs_atlas_cli_tag, check_needs_atlas_ui_tag,
    check_needs_code_example_tag, check_needs_compass_tag, check_needs_java_tag,
    check_needs_lang_metadata, check_needs_nodejs_tag, get_meta_keywords, get_pl_facet_values,
    get_tabids,
};
use codetagger::types::{JavaSyncness, LangSet, Language, Reason};

fn lines(v: &[&str]) -> Vec<String> {
    v.iter().map(|s| s.to_string()).collect()
}

#[test]
fn tabids_are_extracted_and_trimmed() {
    let c = lines(&[
        "tabs-drivers::",
        "   .. tab::",
        "      :tabid: go",
        "      :tabid:   python  ",
        "no tab here",
    ]);
    assert_eq!(get_tabids(&c), vec!["go".to_string(), "python".to_string()]);
}

#[test]
fn tabids_duplicates_kept_in_order() {
    let c = lines(&[":tabid: go", ":tabid: nodejs", ":tabid: go"]);
    assert_eq!(
        get_tabids(&c),
        vec!["go".to_string(), "nodejs".to_string(), "go".to_string()]
    );
}

#[test]
fn meta_keywords_parsed_from_first_line() {
    let c = lines(&[".. meta::", "   :keywords: driver, tutorial , code example"]);
    let kws = get_meta_keywords(&c).unwrap();
    assert_eq!(
        kws,
        vec![
            "driver".to_string(),
            "tutorial".to_string(),
            "code example".to_string()
        ]
    );
}

#[test]
fn meta_keywords_absent() {
    let c = lines(&["No keywords here."]);
    assert!(get_meta_keywords(&c).is_none());
}

#[test]
fn meta_keywords_empty_list() {
    let c = lines(&["   :keywords:"]);
    let kws = get_meta_keywords(&c).unwrap();
    assert_eq!(kws, vec!["".to_string()]);
}

#[test]
fn lang_metadata_needs_trigger_line() {
    // tab ids alone do not flag a page: the trigger directive gates the check
    let c = lines(&["   :tabid: go", "   :tabid: python"]);
    assert!(check_needs_lang_metadata(&c).is_none());
}

#[test]
fn lang_metadata_triggered_by_selector_spelling() {
    // the other trigger spelling opens a tabbed section just as well
    let c = lines(&["tabs-selector:: drivers", "   :tabid: go"]);
    let r = check_needs_lang_metadata(&c).unwrap();
    match r {
        Reason::Languages(s) => {
            assert_eq!(s.len(), 1);
            assert!(s.contains(Language::Go));
        },
        other => panic!("unexpected reason {:?}", other),
    }
}

#[test]
fn lang_metadata_collects_languages() {
    let c = lines(&[
        "Intro.",
        "tabs-drivers::",
        "   :tabid: go",
        "   :tabid: python",
        "   :tabid: not-a-language",
    ]);
    let r = check_needs_lang_metadata(&c).unwrap();
    match r {
        Reason::Languages(s) => {
            assert_eq!(s.len(), 2);
            assert!(s.contains(Language::Go));
            assert!(s.contains(Language::Python));
        },
        other => panic!("unexpected reason {:?}", other),
    }
}

#[test]
fn lang_metadata_no_known_language_is_none() {
    let c = lines(&["tabs-drivers::", "   :tabid: fortran"]);
    assert!(check_needs_lang_metadata(&c).is_none());
}

#[test]
fn nodejs_tag_needs_nodejs_tabid() {
    let c = lines(&["   :tabid: nodejs"]);
    assert_eq!(check_needs_nodejs_tag(&c), Some(Reason::NodejsTab));
    let c2 = lines(&["   :tabid: go"]);
    assert_eq!(check_needs_nodejs_tag(&c2), None);
}

#[test]
fn compass_tag_needs_compass_tabid() {
    let c = lines(&["   :tabid: compass"]);
    assert_eq!(check_needs_compass_tag(&c), Some(Reason::CompassTab));
    assert_eq!(check_needs_compass_tag(&lines(&["plain"])), None);
}

#[test]
fn atlas_api_tag_takes_either_token() {
    let c1 = lines(&["   :tabid: atlasapi"]);
    let c2 = lines(&["   :tabid: api"]);
    assert_eq!(check_needs_atlas_api_tag(&c1), Some(Reason::AtlasApiTab));
    assert_eq!(check_needs_atlas_api_tag(&c2), Some(Reason::AtlasApiTab));
}

#[test]
fn atlas_cli_tag_demands_both_tokens() {
    // unlike the API and UI checks, one token alone is not enough here
    let only_one = lines(&["   :tabid: atlascli"]);
    assert_eq!(check_needs_atlas_cli_tag(&only_one), None);
    let other_one = lines(&["   :tabid: cli"]);
    assert_eq!(check_needs_atlas_cli_tag(&other_one), None);
    let both = lines(&["   :tabid: atlascli", "   :tabid: cli"]);
    assert_eq!(check_needs_atlas_cli_tag(&both), Some(Reason::AtlasCliTab));
}

#[test]
fn atlas_ui_tag_takes_either_token() {
    let c1 = lines(&["   :tabid: atlasui"]);
    let c2 = lines(&["   :tabid: ui"]);
    assert_eq!(check_needs_atlas_ui_tag(&c1), Some(Reason::AtlasUiTab));
    assert_eq!(check_needs_atlas_ui_tag(&c2), Some(Reason::AtlasUiTab));
}

#[test]
fn java_tag_reports_syncness() {
    let sync = lines(&["   :tabid: java-sync"]);
    assert_eq!(
        check_needs_java_tag(&sync),
        Some(Reason::Java(JavaSyncness::Sync))
    );
    let async_only = lines(&["   :tabid: java-async"]);
    assert_eq!(
        check_needs_java_tag(&async_only),
        Some(Reason::Java(JavaSyncness::Async))
    );
    let both = lines(&["   :tabid: java-sync", "   :tabid: java-async"]);
    assert_eq!(
        check_needs_java_tag(&both),
        Some(Reason::Java(JavaSyncness::Both))
    );
    assert_eq!(check_needs_java_tag(&lines(&["text"])), None);
}

#[test]
fn code_example_tag_reports_first_match() {
    let strings = vec!["tabs-drivers::".to_string(), "includes/frag.rst".to_string()];
    let c = lines(&["Intro.", "see includes/frag.rst", "tabs-drivers::"]);
    let r = check_needs_code_example_tag("repo/source/page.rst", &strings, &c);
    assert_eq!(
        r,
        Some(Reason::CodeExample("includes/frag.rst".to_string()))
    );
}

#[test]
fn code_example_tag_skips_fragments() {
    let strings = vec!["tabs-drivers::".to_string()];
    let c = lines(&["tabs-drivers::"]);
    let r = check_needs_code_example_tag("repo/source/includes/frag.rst", &strings, &c);
    assert_eq!(r, None);
}

#[test]
fn code_example_tag_none_without_match() {
    let strings = vec!["tabs-drivers::".to_string()];
    let c = lines(&["Nothing special."]);
    assert_eq!(
        check_needs_code_example_tag("repo/source/page.rst", &strings, &c),
        None
    );
}

#[test]
fn code_example_flagging_ignores_string_order() {
    let c = lines(&["see includes/frag.rst", "tabs-drivers::"]);
    let order_a = vec!["tabs-drivers::".to_string(), "includes/frag.rst".to_string()];
    let order_b = vec!["includes/frag.rst".to_string(), "tabs-drivers::".to_string()];
    let ra = check_needs_code_example_tag("repo/source/page.rst", &order_a, &c);
    let rb = check_needs_code_example_tag("repo/source/page.rst", &order_b, &c);
    assert_eq!(ra.is_some(), rb.is_some());
}

#[test]
fn inference_is_deterministic() {
    let c = lines(&["tabs-drivers::", "   :tabid: go", "   :tabid: python"]);
    let r1 = check_needs_lang_metadata(&c);
    let r2 = check_needs_lang_metadata(&c);
    assert_eq!(r1, r2);
}

#[test]
fn facet_values_parsed() {
    let c = lines(&[
        "Title",
        ".. facet::",
        "   :name: programming_language",
        "   :values: go, python, not-a-language",
        "",
    ]);
    let s: LangSet = get_pl_facet_values(&c).unwrap();
    assert_eq!(s.len(), 2);
    assert!(s.contains(Language::Go));
    assert!(s.contains(Language::Python));
}

#[test]
fn facet_values_absent() {
    let c = lines(&["No facet."]);
    assert!(get_pl_facet_values(&c).is_none());
}
