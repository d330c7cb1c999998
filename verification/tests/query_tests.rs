use forge_meta_link::query::like_matches;
use forge_meta_link::query::normalize_generation_type;
use forge_meta_link::query::normalize_model_family;
use forge_meta_link::query::sanitize_fts_query;
use forge_meta_link::query::SortConfig;
use forge_meta_link::query::SortField;

#[test]
fn test_sanitize_fts_query_builds_safe_prefix_terms() {
    let query = r#" Model:XL cat++ seed:123 "#;
    let sanitized = sanitize_fts_query(query);
    assert_eq!(sanitized, "modelxl* cat* seed123*");
}

#[test]
fn test_sanitize_fts_query_all_special_chars_is_empty() {
    let query = r#" ::: ??? +++  "#;
    let sanitized = sanitize_fts_query(query);
    assert!(sanitized.is_empty());
}

#[test]
fn test_sanitize_fts_query_quoted_phrase() {
    let query = r#""best quality" cat"#;
    let sanitized = sanitize_fts_query(query);
    assert_eq!(sanitized, r#""best quality" cat*"#);
}

#[test]
fn test_sanitize_fts_query_wildcard_preserved() {
    let query = "cat* dog";
    let sanitized = sanitize_fts_query(query);
    assert_eq!(sanitized, "cat* dog*");
}

#[test]
fn sort_names_map_to_fields() {
    assert_eq!(SortConfig::from_str("oldest"), SortConfig { field: SortField::Id, descending: false });
    assert_eq!(
        SortConfig::from_str("name_desc"),
        SortConfig { field: SortField::Filename, descending: true }
    );
    assert_eq!(
        SortConfig::from_str("anything"),
        SortConfig { field: SortField::Id, descending: true }
    );
}

#[test]
fn generation_type_synonyms_fold() {
    assert_eq!(normalize_generation_type(" Txt2Image "), Some("txt2img".to_string()));
    assert_eq!(normalize_generation_type("grids"), Some("grid".to_string()));
    assert_eq!(normalize_generation_type("mystery"), None);
}

#[test]
fn model_family_names_compact() {
    assert_eq!(normalize_model_family("Pony XL"), Some("ponyxl".to_string()));
    assert_eq!(normalize_model_family("Stable Diffusion 1.5"), Some("sd15".to_string()));
    assert_eq!(normalize_model_family("z-image turbo"), Some("zimage_turbo".to_string()));
    assert_eq!(normalize_model_family("unheard-of"), None);
}

#[test]
fn like_patterns_match_substrings_and_single_chars() {
    assert!(like_matches("%sdxl%", "my-sdxl-model"));
    assert!(like_matches("grid-%", "grid-0001.png"));
    assert!(!like_matches("grid-%", "a-grid-0001.png"));
    assert!(like_matches("%_grid-%", "a_grid-0001.png"));
    assert!(!like_matches("%_grid-%", "grid-0001.png"));
}

#[test]
fn unmatched_quote_falls_back_to_words() {
    assert_eq!(sanitize_fts_query(r#"ab "cd"#), "ab* cd*");
}

#[test]
fn phrase_whitespace_collapses() {
    assert_eq!(sanitize_fts_query("\"Best   Quality!\""), "\"best quality\"");
}
