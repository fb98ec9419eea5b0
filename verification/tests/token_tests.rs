//! The capability token resolver and the batch generator.

use survey_store::document::List;
use survey_store::error::DataError;
use survey_store::tokens::{gen_tokens, resolve, token_urls};

fn token_map(pairs: &[(&str, &str)]) -> Vec<(String, String)> {
    pairs.iter().map(|(k, v)| (k.to_string(), v.to_string())).collect()
}

#[test]
fn known_token_resolves_to_its_respondent() {
    let tm = token_map(&[("OneAAAA", "p1"), ("TwoBBBB", "p2")]);
    assert_eq!(resolve(&tm, "OneAAAA").unwrap(), "p1");
    assert_eq!(resolve(&tm, "TwoBBBB").unwrap(), "p2");
}

#[test]
fn unknown_token_fails_with_not_found() {
    let tm = token_map(&[("OneAAAA", "p1")]);
    assert_eq!(resolve(&tm, "OneAAAB").err(), Some(DataError::NotFound));
    assert_eq!(resolve(&tm, "").err(), Some(DataError::NotFound));
    assert_eq!(resolve(&tm, "OneAAA").err(), Some(DataError::NotFound));
}

#[test]
fn distinct_tokens_resolve_distinctly_unless_provisioned() {
    let tm = token_map(&[("tokA", "p1"), ("tokB", "p2"), ("tokC", "p1")]);
    assert_eq!(resolve(&tm, "tokA").unwrap(), "p1");
    assert_eq!(resolve(&tm, "tokB").unwrap(), "p2");
    // Only an explicitly provisioned second token reaches the same id.
    assert_eq!(resolve(&tm, "tokC").unwrap(), "p1");
}

#[test]
fn generated_tokens_carry_prefix_and_random_suffix() {
    let lists = vec![
        (
            "p1".to_string(),
            List { name: "Party One".to_string(), name_x: "One Word".to_string() },
        ),
        (
            "p2".to_string(),
            List { name: "Party Two".to_string(), name_x: "  Two  ".to_string() },
        ),
    ];
    let tokens = gen_tokens(&lists);
    assert_eq!(tokens.len(), 2);
    assert_eq!(tokens[0].1, "p1");
    assert_eq!(tokens[1].1, "p2");
    // Prefix: first whitespace-delimited word of the short name.
    assert!(tokens[0].0.starts_with("One"));
    assert_eq!(tokens[0].0.chars().count(), 3 + 30);
    assert!(tokens[1].0.starts_with("Two"));
    assert_eq!(tokens[1].0.chars().count(), 3 + 30);
    // Suffix: alphanumeric only.
    for (tok, _) in &tokens {
        assert!(tok.chars().all(|c| c.is_ascii_alphanumeric()));
    }
    // Two runs must not hand out the same suffix (negligible collision odds).
    let second = gen_tokens(&lists);
    assert_ne!(tokens[0].0, second[0].0);
}

#[test]
fn token_urls_join_base_and_token() {
    let tm = token_map(&[("OneAAAA", "p1"), ("TwoBBBB", "p2")]);
    let urls = token_urls(&tm, "https://example.org/survey");
    assert_eq!(urls.len(), 2);
    assert_eq!(urls[0], "https://example.org/survey/OneAAAA");
    assert_eq!(urls[1], "https://example.org/survey/TwoBBBB");
}
