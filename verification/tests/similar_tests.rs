use codetagger::similar::{add_keywords_unique, is_similar_distance, similar_keyword_pairs};

fn kws(v: &[&str]) -> Vec<String> {
    v.iter().map(|s| s.to_string()).collect()
}

#[test]
fn similar_band_bounds() {
    assert!(!is_similar_distance(0));
    assert!(is_similar_distance(1));
    assert!(is_similar_distance(3));
    assert!(!is_similar_distance(4));
}

#[test]
fn near_spellings_are_reported() {
    let pairs = similar_keyword_pairs(&kws(&["color", "colour"]));
    assert_eq!(
        pairs,
        vec![
            ("color".to_string(), "colour".to_string()),
            ("colour".to_string(), "color".to_string())
        ]
    );
}

#[test]
fn identical_keywords_are_not_reported() {
    // a keyword against itself has distance zero, outside the band
    let pairs = similar_keyword_pairs(&kws(&["driver", "driver"]));
    assert!(pairs.is_empty());
}

#[test]
fn distant_keywords_are_not_reported() {
    let pairs = similar_keyword_pairs(&kws(&["driver", "aggregation"]));
    assert!(pairs.is_empty());
}

#[test]
fn distance_three_is_still_reported() {
    // "kitten" to "sitting" takes three edits, the edge of the band
    let pairs = similar_keyword_pairs(&kws(&["kitten", "sitting"]));
    assert_eq!(pairs.len(), 2);
}

#[test]
fn keywords_deduplicate_in_first_seen_order() {
    let mut all: Vec<String> = Vec::new();
    add_keywords_unique(&mut all, &kws(&["driver", "tutorial"]));
    add_keywords_unique(&mut all, &kws(&["tutorial", "compass", "driver"]));
    assert_eq!(all, kws(&["driver", "tutorial", "compass"]));
}
