use forge_meta_link::forge::build_sdapi_endpoint;
use forge_meta_link::forge::normalize_base_url;
use forge_meta_link::forge::parse_i64;
use forge_meta_link::forge::parse_optional_text;
use forge_meta_link::forge::parse_u32;

#[test]
fn normalize_base_url_strips_sdapi_suffixes() {
    assert_eq!(
        normalize_base_url("http://127.0.0.1:7860/sdapi/v1"),
        "http://127.0.0.1:7860"
    );
    assert_eq!(
        normalize_base_url("http://127.0.0.1:7860/sdapi"),
        "http://127.0.0.1:7860"
    );
}

#[test]
fn normalize_base_url_strips_docs_then_api() {
    assert_eq!(
        normalize_base_url("http://127.0.0.1:7860/sdapi/v1/docs/"),
        "http://127.0.0.1:7860"
    );
}

#[test]
fn build_sdapi_endpoint_avoids_duplicate_prefix() {
    assert_eq!(
        build_sdapi_endpoint("http://127.0.0.1:7860", "txt2img"),
        "http://127.0.0.1:7860/sdapi/v1/txt2img"
    );
    assert_eq!(
        build_sdapi_endpoint("http://127.0.0.1:7860/sdapi/v1", "/txt2img"),
        "http://127.0.0.1:7860/sdapi/v1/txt2img"
    );
}

#[test]
fn lazy_scalars_parse_on_demand() {
    assert_eq!(parse_u32(Some(" 30 ")), Some(30));
    assert_eq!(parse_u32(Some("7.5")), None);
    assert_eq!(parse_i64(Some("-12345")), Some(-12345));
    assert_eq!(parse_i64(Some("seed")), None);
    assert_eq!(parse_optional_text(Some("  Euler a ")), Some("Euler a".to_string()));
    assert_eq!(parse_optional_text(Some("   ")), None);
    assert_eq!(parse_optional_text(None), None);
}
