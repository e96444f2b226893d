use codetagger::includes::{
    get_files_that_include_this_file, get_includes_with_code_tabs, rel_path, Doc,
};

fn doc(path: &str, content: &[&str]) -> Doc {
    Doc {
        path: path.to_string(),
        lines: content.iter().map(|s| s.to_string()).collect(),
    }
}

#[test]
fn rel_path_cuts_at_source() {
    assert_eq!(rel_path("repo/source/includes/frag.rst"), "includes/frag.rst");
    assert_eq!(rel_path("repo/source/page.rst"), "page.rst");
}

#[test]
fn includes_with_code_tabs_finds_both_spellings() {
    let docs = vec![
        doc("r/source/includes/a.rst", &["tabs-drivers::", "   :tabid: go"]),
        doc("r/source/includes/b.rst", &["tabs-selector:: drivers"]),
        doc("r/source/includes/c.rst", &["nothing here"]),
        doc("r/source/page.rst", &["tabs-drivers::"]),
    ];
    let r = get_includes_with_code_tabs(&docs);
    assert_eq!(
        r,
        vec!["includes/a.rst".to_string(), "includes/b.rst".to_string()]
    );
}

#[test]
fn direct_includers_are_found_and_sorted() {
    let docs = vec![
        doc("r/source/z-page.rst", &["see includes/frag.rst"]),
        doc("r/source/a-page.rst", &["also includes/frag.rst here"]),
        doc("r/source/other.rst", &["unrelated"]),
        doc("elsewhere/readme.txt", &["includes/frag.rst"]),
    ];
    let r = get_files_that_include_this_file("r/source/includes/frag.rst", &docs);
    assert_eq!(
        r,
        vec!["r/source/a-page.rst".to_string(), "r/source/z-page.rst".to_string()]
    );
}

#[test]
fn includers_propagate_through_fragments() {
    let docs = vec![
        doc("r/source/includes/outer.rst", &[".. include:: /includes/inner.rst"]),
        doc("r/source/page.rst", &[".. include:: /includes/outer.rst"]),
        doc("r/source/unrelated.rst", &["text"]),
    ];
    // page.rst embeds outer.rst, which embeds inner.rst: both are includers
    let r = get_files_that_include_this_file("r/source/includes/inner.rst", &docs);
    assert_eq!(
        r,
        vec![
            "r/source/includes/outer.rst".to_string(),
            "r/source/page.rst".to_string()
        ]
    );
}

#[test]
fn cyclic_includes_terminate() {
    let docs = vec![
        doc("r/source/includes/a.rst", &[".. include:: /includes/b.rst"]),
        doc("r/source/includes/b.rst", &[".. include:: /includes/a.rst"]),
    ];
    let r = get_files_that_include_this_file("r/source/includes/a.rst", &docs);
    assert_eq!(
        r,
        vec![
            "r/source/includes/a.rst".to_string(),
            "r/source/includes/b.rst".to_string()
        ]
    );
}

#[test]
fn self_include_terminates() {
    let docs = vec![doc(
        "r/source/includes/a.rst",
        &["this fragment names includes/a.rst itself"],
    )];
    let r = get_files_that_include_this_file("r/source/includes/a.rst", &docs);
    assert_eq!(r, vec!["r/source/includes/a.rst".to_string()]);
}

#[test]
fn no_includers_yields_empty() {
    let docs = vec![doc("r/source/page.rst", &["nothing relevant"])];
    let r = get_files_that_include_this_file("r/source/includes/frag.rst", &docs);
    assert!(r.is_empty());
}

#[test]
fn includer_outside_source_tree_is_ignored() {
    let docs = vec![doc("r/build/page.rst", &["includes/frag.rst"])];
    let r = get_files_that_include_this_file("r/source/includes/frag.rst", &docs);
    assert!(r.is_empty());
}

#[test]
fn trigger_spellings_match_the_classifier() {
    let docs = vec![
        doc(
            "r/source/includes/one.rst",
            &[codetagger::code_tabs_string_1()],
        ),
        doc(
            "r/source/includes/two.rst",
            &[codetagger::code_tabs_string_2()],
        ),
    ];
    let r = get_includes_with_code_tabs(&docs);
    assert_eq!(
        r,
        vec!["includes/one.rst".to_string(), "includes/two.rst".to_string()]
    );
}
