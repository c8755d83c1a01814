use nixdoc_lookup::model::{Doc, Docs, Meta};

fn doc(title: &str) -> Doc {
    Doc {
        meta: Meta {
            title: title.to_string(),
            path: title.split('.').map(|s| s.to_string()).collect(),
            aliases: None,
            is_primop: None,
            is_functor: None,
            primop_meta: None,
            attr_position: None,
            attr_expr: None,
            lambda_position: None,
            lambda_expr: None,
            count_applied: None,
            content_meta: None,
            signature: None,
        },
        content: None,
    }
}

fn map_corpus() -> Docs {
    Docs(vec![
        doc("lib.attrsets.mapAttrs"),
        doc("lib.lists.map"),
        doc("builtins.map"),
    ])
}

#[test]
fn get_by_title_returns_first_match() {
    let docs = map_corpus();
    let found = docs.get_by_title("lib.lists.map");
    assert!(found.is_some());
    assert_eq!(found.unwrap().meta.title, "lib.lists.map");
}

#[test]
fn get_by_title_unknown_is_none() {
    let docs = map_corpus();
    assert!(docs.get_by_title("nonexistent").is_none());
}

#[test]
fn get_by_title_picks_corpus_order_on_duplicates() {
    let mut a = doc("dup");
    a.meta.signature = Some("first".to_string());
    let mut b = doc("dup");
    b.meta.signature = Some("second".to_string());
    let docs = Docs(vec![a, b]);
    let found = docs.get_by_title("dup").unwrap();
    assert_eq!(found.meta.signature.as_deref(), Some("first"));
}

#[test]
fn fuzzy_search_finds_all_three_map_entries() {
    let docs = map_corpus();
    let results = docs.search("map", 0);
    let indices: Vec<usize> = results.iter().map(|p| p.0).collect();
    assert_eq!(results.len(), 3);
    assert!(indices.contains(&0));
    assert!(indices.contains(&1));
    assert!(indices.contains(&2));
    // An exact-substring match ranks at or above the scattered
    // subsequence match.
    let score_of = |i: usize| results.iter().find(|p| p.0 == i).unwrap().1;
    let attrsets = score_of(0);
    let lists = score_of(1);
    let builtins = score_of(2);
    assert!(lists >= attrsets || builtins >= attrsets);
    // Sorted by descending score.
    for w in results.windows(2) {
        assert!(w[0].1 >= w[1].1);
    }
}

#[test]
fn search_on_empty_corpus_is_empty() {
    let docs = Docs(vec![]);
    assert!(docs.search("map", 0).is_empty());
    assert!(docs.search("", i64::MIN).is_empty());
    assert!(docs.get_by_title("map").is_none());
}

#[test]
fn search_rejects_non_matching_query() {
    let docs = Docs(vec![doc("abc")]);
    assert!(docs.search("zzz", i64::MIN).is_empty());
}

#[test]
fn search_threshold_is_monotonic() {
    let docs = map_corpus();
    let loose = docs.search("map", i64::MIN);
    let tight = docs.search("map", loose[0].1);
    for p in &tight {
        assert!(loose.contains(p));
    }
    assert!(tight.len() <= loose.len());
}

#[test]
fn search_is_deterministic_and_stable_on_ties() {
    let docs = Docs(vec![doc("dup"), doc("dup"), doc("dup")]);
    let first = docs.search("dup", i64::MIN);
    let second = docs.search("dup", i64::MIN);
    assert_eq!(first, second);
    // Equal titles score equally; corpus order is kept.
    assert_eq!(first.iter().map(|p| p.0).collect::<Vec<_>>(), vec![0, 1, 2]);
    assert!(first[0].1 == first[1].1 && first[1].1 == first[2].1);
}

#[test]
fn fuzzy_search_keeps_corpus_order() {
    let docs = map_corpus();
    let raw = docs.fuzzy_search("map");
    let indices: Vec<usize> = raw.iter().map(|p| p.0).collect();
    assert_eq!(indices, vec![0, 1, 2]);
}

#[test]
fn fuzzy_search_sorted_sorts_descending() {
    let docs = map_corpus();
    let ranked = docs.fuzzy_search_sorted("map");
    assert_eq!(ranked.len(), 3);
    for w in ranked.windows(2) {
        assert!(w[0].1 >= w[1].1);
    }
}

#[test]
fn empty_query_matches_everything() {
    let docs = map_corpus();
    let results = docs.search("", 0);
    assert_eq!(results.len(), 3);
    for p in &results {
        assert_eq!(p.1, 0);
    }
}
