use std::io::Write;

use forge_meta_link::scanner::extract_metadata;
use forge_meta_link::scanner::extract_text_chunks;
use forge_meta_link::scanner::quick_hash_from_samples;
use forge_meta_link::scanner::quick_hash_sample_len;
use forge_meta_link::scanner::supports_png_metadata;

const PNG_SIGNATURE: [u8; 8] = [137, 80, 78, 71, 13, 10, 26, 10];

fn build_chunk(chunk_type: [u8; 4], data: &[u8]) -> Vec<u8> {
    let mut out = Vec::new();
    out.extend_from_slice(&(data.len() as u32).to_be_bytes());
    out.extend_from_slice(&chunk_type);
    out.extend_from_slice(data);
    out.extend_from_slice(&0u32.to_be_bytes());
    out
}

fn build_test_png(text_chunks: Vec<([u8; 4], Vec<u8>)>) -> Vec<u8> {
    let mut bytes = PNG_SIGNATURE.to_vec();
    let ihdr_data = [0, 0, 0, 1, 0, 0, 0, 1, 8, 2, 0, 0, 0];
    bytes.extend_from_slice(&build_chunk(*b"IHDR", &ihdr_data));
    for (chunk_type, chunk_data) in text_chunks {
        bytes.extend_from_slice(&build_chunk(chunk_type, &chunk_data));
    }
    bytes.extend_from_slice(&build_chunk(*b"IEND", &[]));
    bytes
}

fn deflate(payload: &[u8]) -> Vec<u8> {
    let mut encoder =
        flate2::write::ZlibEncoder::new(Vec::new(), flate2::Compression::default());
    encoder.write_all(payload).expect("failed to write zlib payload");
    encoder.finish().expect("failed to finish zlib payload")
}

#[test]
fn test_extract_metadata_returns_none_for_non_png() {
    let result = extract_metadata("Cargo.toml", &b"[package]".to_vec());
    assert!(result.is_none());
}

#[test]
fn test_extract_text_chunks_returns_all_supported_chunk_types() {
    let mut text_data = b"parameters\0".to_vec();
    text_data.extend_from_slice(b"from text");

    let mut ztxt_data = b"comment\0".to_vec();
    ztxt_data.push(0);
    ztxt_data.extend_from_slice(&deflate(b"from ztxt"));

    let mut itxt_data = b"description\0".to_vec();
    itxt_data.push(1);
    itxt_data.push(0);
    itxt_data.push(0);
    itxt_data.push(0);
    itxt_data.extend_from_slice(&deflate(b"from itxt"));

    let png_bytes = build_test_png(vec![
        (*b"tEXt", text_data),
        (*b"zTXt", ztxt_data),
        (*b"iTXt", itxt_data),
    ]);

    let result = extract_text_chunks(&png_bytes).expect("chunk extraction failed");
    let get = |k: &str| {
        result
            .iter()
            .rev()
            .find(|p| p.0 == k)
            .map(|p| p.1.as_str())
    };
    assert_eq!(get("parameters"), Some("from text"));
    assert_eq!(get("comment"), Some("from ztxt"));
    assert_eq!(get("description"), Some("from itxt"));
}

#[test]
fn test_extracts_parameters_from_text_chunk() {
    let metadata = "Steps: 20, Sampler: Euler";
    let mut text_data = b"parameters\0".to_vec();
    text_data.extend_from_slice(metadata.as_bytes());

    let png_bytes = build_test_png(vec![(*b"tEXt", text_data)]);
    let result = extract_metadata("image.png", &png_bytes);
    assert_eq!(result.as_deref(), Some(metadata));
}

#[test]
fn test_extracts_parameters_from_ztxt_chunk() {
    let metadata = "Steps: 30, Sampler: DPM++ 2M Karras";
    let mut ztxt_data = b"parameters\0".to_vec();
    ztxt_data.push(0);
    ztxt_data.extend_from_slice(&deflate(metadata.as_bytes()));

    let png_bytes = build_test_png(vec![(*b"zTXt", ztxt_data)]);
    let result = extract_metadata("image.png", &png_bytes);
    assert_eq!(result.as_deref(), Some(metadata));
}

#[test]
fn test_extracts_parameters_from_compressed_itxt_chunk() {
    let metadata = "Steps: 25, Sampler: Euler a, CFG scale: 6.5";
    let mut itxt_data = b"parameters\0".to_vec();
    itxt_data.push(1);
    itxt_data.push(0);
    itxt_data.push(0);
    itxt_data.push(0);
    itxt_data.extend_from_slice(&deflate(metadata.as_bytes()));

    let png_bytes = build_test_png(vec![(*b"iTXt", itxt_data)]);
    let result = extract_metadata("image.png", &png_bytes);
    assert_eq!(result.as_deref(), Some(metadata));
}

#[test]
fn test_extracts_prompt_metadata_when_parameters_is_missing() {
    let prompt_graph =
        r#"{"3":{"class_type":"CLIPTextEncode","inputs":{"text":"trump at a rally"}}}"#;
    let mut text_data = b"prompt\0".to_vec();
    text_data.extend_from_slice(prompt_graph.as_bytes());

    let png_bytes = build_test_png(vec![(*b"tEXt", text_data)]);
    let result = extract_metadata("image.png", &png_bytes);
    assert_eq!(result.as_deref(), Some(prompt_graph));
}

#[test]
fn test_extracts_novelai_compatible_metadata_summary() {
    let mut software = b"Software\0".to_vec();
    software.extend_from_slice(b"NovelAI");

    let mut description = b"Description\0".to_vec();
    description.extend_from_slice(b"cinematic portrait of a hero");

    let mut comment = b"Comment\0".to_vec();
    comment.extend_from_slice(
        br#"{"uc":"low quality, blurry","steps":28,"sampler":"k_euler","scale":6.5,"seed":1234,"width":1024,"height":1024}"#,
    );

    let png_bytes = build_test_png(vec![
        (*b"tEXt", software),
        (*b"tEXt", description),
        (*b"tEXt", comment),
    ]);

    let extracted = extract_metadata("image.png", &png_bytes).expect("expected metadata");
    assert!(extracted.contains("cinematic portrait of a hero"));
    assert!(extracted.contains("Negative prompt: low quality, blurry"));
    assert!(extracted.contains("Steps: 28"));
    assert!(extracted.contains("Sampler: k_euler"));
    assert!(extracted.contains("Size: 1024x1024"));
}

#[test]
fn test_quick_hash_is_stable_for_same_file() {
    let bytes = build_test_png(vec![]);
    let len = quick_hash_sample_len(bytes.len() as u64) as usize;
    let head: Vec<u8> = bytes[..len].to_vec();
    let hash_a = quick_hash_from_samples(bytes.len() as u64, &head, None);
    let hash_b = quick_hash_from_samples(bytes.len() as u64, &head, None);
    assert_eq!(hash_a, hash_b);
    assert_eq!(hash_a.len(), 24);
    let other = quick_hash_from_samples(bytes.len() as u64 + 1, &head, None);
    assert_ne!(hash_a, other);
}

#[test]
fn png_extensions_compare_case_insensitively() {
    assert!(supports_png_metadata("a/b/c.PNG"));
    assert!(supports_png_metadata("c.png"));
    assert!(!supports_png_metadata("c.jpg"));
    assert!(!supports_png_metadata("pngfile"));
    assert!(!supports_png_metadata(".png"));
}
