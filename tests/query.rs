use finalfusion_utils::query::{excludes_from_includes, missing_tokens, parse_query};

#[test]
fn query_of_three_tokens_parses() {
    let q = parse_query("  king man\twoman ").unwrap();
    assert_eq!(q, ("king".to_string(), "man".to_string(), "woman".to_string()));
}

#[test]
fn query_of_other_token_counts_fails() {
    assert_eq!(parse_query("king man"), Err(2));
    assert_eq!(parse_query("king man woman queen"), Err(4));
    assert_eq!(parse_query(""), Err(0));
}

#[test]
fn no_includes_excludes_all() {
    assert_eq!(excludes_from_includes(&vec![]), [true, true, true]);
}

#[test]
fn includes_lift_exclusions() {
    assert_eq!(excludes_from_includes(&vec!["b".to_string()]), [true, false, true]);
    assert_eq!(
        excludes_from_includes(&vec!["c".to_string(), "a".to_string()]),
        [false, true, false]
    );
    assert_eq!(
        excludes_from_includes(&vec!["a".to_string(), "b".to_string(), "c".to_string()]),
        [false, false, false]
    );
}

#[test]
fn missing_tokens_lists_unresolved_in_order() {
    let q = ("king".to_string(), "man".to_string(), "wömän".to_string());
    assert_eq!(missing_tokens(&q, [true, false, false]), vec!["man", "wömän"]);
    assert_eq!(missing_tokens(&q, [false, true, true]), vec!["king"]);
    assert!(missing_tokens(&q, [true, true, true]).is_empty());
}
