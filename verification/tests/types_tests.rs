use codetagger::types::{JavaSyncness, LangSet, Language, ParseLangError};

#[test]
fn parse_canonical_tokens() {
    assert_eq!(Language::from_str("c"), Ok(Language::C));
    assert_eq!(Language::from_str("cpp"), Ok(Language::Cpp));
    assert_eq!(Language::from_str("csharp"), Ok(Language::Csharp));
    assert_eq!(Language::from_str("go"), Ok(Language::Go));
    assert_eq!(Language::from_str("kotlin"), Ok(Language::Kotlin));
    assert_eq!(Language::from_str("perl"), Ok(Language::Perl));
    assert_eq!(Language::from_str("php"), Ok(Language::Php));
    assert_eq!(Language::from_str("python"), Ok(Language::Python));
    assert_eq!(Language::from_str("ruby"), Ok(Language::Ruby));
    assert_eq!(Language::from_str("rust"), Ok(Language::Rust));
    assert_eq!(Language::from_str("scala"), Ok(Language::Scala));
    assert_eq!(Language::from_str("shell"), Ok(Language::Shell));
}

#[test]
fn parse_alias_tokens_collapse() {
    assert_eq!(Language::from_str("java-sync"), Ok(Language::Java));
    assert_eq!(Language::from_str("java-async"), Ok(Language::Java));
    assert_eq!(Language::from_str("nodejs"), Ok(Language::Javascript));
    assert_eq!(
        Language::from_str("javascript/typescript"),
        Ok(Language::Javascript)
    );
    assert_eq!(Language::from_str("kotlin-coroutine"), Ok(Language::Kotlin));
    assert_eq!(Language::from_str("rust-sync"), Ok(Language::Rust));
    assert_eq!(Language::from_str("rust-async"), Ok(Language::Rust));
    assert_eq!(Language::from_str("swift-sync"), Ok(Language::Swift));
    assert_eq!(Language::from_str("swift-async"), Ok(Language::Swift));
}

#[test]
fn parse_unknown_token_is_error() {
    assert_eq!(Language::from_str("cobol"), Err(ParseLangError));
    assert_eq!(Language::from_str(""), Err(ParseLangError));
    assert_eq!(Language::from_str("swift"), Err(ParseLangError));
    assert_eq!(Language::from_str("Go"), Err(ParseLangError));
}

#[test]
fn render_is_canonical() {
    assert_eq!(Language::Go.render(), "go");
    assert_eq!(Language::Javascript.render(), "javascript/typescript");
    assert_eq!(Language::Java.render(), "java");
    assert_eq!(Language::Swift.render(), "swift");
}

#[test]
fn langset_keeps_canonical_order() {
    let mut s = LangSet::new();
    s.insert(Language::Swift);
    s.insert(Language::C);
    s.insert(Language::Python);
    assert_eq!(s.len(), 3);
    assert_eq!(s.get(0), Language::C);
    assert_eq!(s.get(1), Language::Python);
    assert_eq!(s.get(2), Language::Swift);
}

#[test]
fn langset_ignores_duplicates() {
    let mut s = LangSet::new();
    s.insert(Language::Go);
    s.insert(Language::Go);
    assert_eq!(s.len(), 1);
    assert!(s.contains(Language::Go));
    assert!(!s.contains(Language::Rust));
}

#[test]
fn langset_order_of_insertion_does_not_matter() {
    let mut a = LangSet::new();
    a.insert(Language::Python);
    a.insert(Language::Go);
    a.insert(Language::Rust);
    let mut b = LangSet::new();
    b.insert(Language::Rust);
    b.insert(Language::Go);
    b.insert(Language::Python);
    assert_eq!(a, b);
}

#[test]
fn langset_empty() {
    let s = LangSet::new();
    assert!(s.is_empty());
    assert_eq!(s.len(), 0);
}

#[test]
fn syncness_values_are_distinct() {
    assert_ne!(JavaSyncness::Sync, JavaSyncness::Async);
    assert_ne!(JavaSyncness::Sync, JavaSyncness::Both);
    assert_ne!(JavaSyncness::Async, JavaSyncness::Both);
}
