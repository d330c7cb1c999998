use forge_meta_link::parser::parse_a1111_metadata;
use forge_meta_link::parser::parse_generation_metadata;
use forge_meta_link::parser::infer_generation_type;
use forge_meta_link::tags::extract_tags;

const SAMPLE_METADATA: &str = r#"<lora:norman_rockwell_style_pony_v6-000040:0.6> <lora:Higashiyama_Shou_PonyXL_Style:0.7>  zPDXL3 zPDXLxxx,brown_eyes brown_hair,flat_chest highres,medium_hair,petite,wispy_bangs,hair_over_one_eye,<lora:Age Slider V2_alpha1.0_rank4_noxattn_last:-3.6> <lora:BetterFaces:0.7>,open_jacket,anime_coloring
Steps: 30, Sampler: Euler a, Schedule type: Karras, CFG scale: 5, Seed: 87358210, Size: 896x1152, Model hash: 747bbe7d2d, Model: SuzannesSnowRainFissionTernaryponyRealism, ADetailer model: face_yolov8n.pt, ADetailer confidence: 0.8, Version: f2.0.1v1.10.1-previous-659-gc055f2d4"#;

const SAMPLE_WITH_NEGATIVE: &str = r#"masterpiece, best quality, 1girl, solo
Negative prompt: worst quality, low quality, normal quality
Steps: 20, Sampler: DPM++ 2M Karras, CFG scale: 7, Seed: 12345, Size: 512x768, Model hash: abc123, Model: anything-v5"#;

#[test]
fn test_parse_valid_metadata() {
    let params = parse_a1111_metadata(SAMPLE_METADATA);
    assert!(params.prompt.contains("norman_rockwell_style_pony"));
    assert!(params.prompt.contains("anime_coloring"));
    assert_eq!(params.steps.as_deref(), Some("30"));
    assert_eq!(params.sampler.as_deref(), Some("Euler a"));
    assert_eq!(params.cfg_scale.as_deref(), Some("5"));
    assert_eq!(params.seed.as_deref(), Some("87358210"));
    assert_eq!(params.width, Some(896));
    assert_eq!(params.height, Some(1152));
    assert_eq!(params.model_hash.as_deref(), Some("747bbe7d2d"));
    assert_eq!(
        params.model_name.as_deref(),
        Some("SuzannesSnowRainFissionTernaryponyRealism")
    );
}

#[test]
fn test_parse_with_negative_prompt() {
    let params = parse_a1111_metadata(SAMPLE_WITH_NEGATIVE);
    assert_eq!(params.prompt, "masterpiece, best quality, 1girl, solo");
    assert_eq!(
        params.negative_prompt,
        "worst quality, low quality, normal quality"
    );
    assert_eq!(params.steps.as_deref(), Some("20"));
    assert_eq!(params.sampler.as_deref(), Some("DPM++ 2M Karras"));
    assert_eq!(params.seed.as_deref(), Some("12345"));
    assert_eq!(params.width, Some(512));
    assert_eq!(params.height, Some(768));
}

#[test]
fn test_parse_weighted_prompts() {
    let raw = "(masterpiece:1.2), (best quality:1.4), 1girl\nSteps: 15, Sampler: Euler, CFG scale: 7.5, Seed: 999, Size: 512x512";
    let params = parse_a1111_metadata(raw);
    assert!(params.prompt.contains("(masterpiece:1.2)"));
    assert!(params.prompt.contains("(best quality:1.4)"));
    assert_eq!(params.steps.as_deref(), Some("15"));
    assert_eq!(params.cfg_scale.as_deref(), Some("7.5"));
}

#[test]
fn test_parse_parameter_values_with_commas() {
    let raw = r#"portrait of a cat
Steps: 20, Sampler: Euler a, Lora hashes: "foo:111, bar:222", ADetailer prompt: face, eyes, smile, CFG scale: 7, Seed: 42"#;

    let params = parse_a1111_metadata(raw);

    assert_eq!(params.steps.as_deref(), Some("20"));
    assert_eq!(params.sampler.as_deref(), Some("Euler a"));
    assert_eq!(params.cfg_scale.as_deref(), Some("7"));
    assert_eq!(params.seed.as_deref(), Some("42"));
    assert_eq!(
        params.extra_param("Lora hashes").map(String::as_str),
        Some(r#""foo:111, bar:222""#)
    );
    assert_eq!(
        params.extra_param("ADetailer prompt").map(String::as_str),
        Some("face, eyes, smile")
    );
}

#[test]
fn test_parse_empty() {
    let params = parse_a1111_metadata("");
    assert!(params.prompt.is_empty());
    assert!(params.steps.is_none());
}

#[test]
fn test_extract_tags_from_prompt_and_lora_embedding() {
    let prompt = "(masterpiece:1.2), 1girl, cinematic lighting, <lora:MyStyle:0.7>, embedding:EasyNegative";
    let tags = extract_tags(prompt);

    assert!(tags.contains(&"masterpiece".to_string()));
    assert!(tags.contains(&"1girl".to_string()));
    assert!(tags.contains(&"cinematic lighting".to_string()));
    assert!(tags.contains(&"lora:mystyle".to_string()));
    assert!(tags.contains(&"embedding:easynegative".to_string()));
}

#[test]
fn test_extract_tags_from_natural_language_prompt() {
    let prompt = "Portrait of Donald Trump standing in Times Square with dramatic lighting";
    let tags = extract_tags(prompt);

    assert!(tags.contains(&"trump".to_string()));
    assert!(tags.contains(&"portrait".to_string()));
    assert!(tags.contains(&"times".to_string()));
}

#[test]
fn test_parse_generation_metadata_from_comfy_prompt_graph() {
    let raw = r#"{
        "3": {
            "class_type": "KSampler",
            "inputs": {
                "seed": 987654,
                "steps": 30,
                "cfg": 4.5,
                "sampler_name": "euler",
                "scheduler": "karras",
                "positive": ["6", 0],
                "negative": ["7", 0]
            }
        },
        "4": {
            "class_type": "CheckpointLoaderSimple",
            "inputs": {
                "ckpt_name": "flux1-dev.safetensors"
            }
        },
        "6": {
            "class_type": "CLIPTextEncode",
            "inputs": {
                "text": "Donald Trump giving a speech in New York"
            }
        },
        "7": {
            "class_type": "CLIPTextEncode",
            "_meta": {
                "title": "CLIP Text Encode (Negative Prompt)"
            },
            "inputs": {
                "text": "low quality, blurry"
            }
        }
    }"#;

    let params = parse_generation_metadata(raw);
    assert!(params.prompt.contains("Donald Trump"));
    assert_eq!(params.negative_prompt, "low quality, blurry");
    assert_eq!(params.steps.as_deref(), Some("30"));
    assert_eq!(params.cfg_scale.as_deref(), Some("4.5"));
    assert_eq!(params.sampler.as_deref(), Some("euler"));
    assert_eq!(params.schedule_type.as_deref(), Some("karras"));
    assert_eq!(params.seed.as_deref(), Some("987654"));
    assert_eq!(params.model_name.as_deref(), Some("flux1-dev.safetensors"));
}

#[test]
fn infer_generation_type_follows_keyword_priority() {
    assert_eq!(infer_generation_type("Script: X/Y/Z plot, inpaint"), "grid");
    assert_eq!(infer_generation_type("Mask blur: 4, Upscaler: Latent"), "inpaint");
    assert_eq!(infer_generation_type("Upscale by: 2"), "upscale");
    assert_eq!(infer_generation_type("Denoising strength: 0.4"), "img2img");
    assert_eq!(
        infer_generation_type("Hires upscale: 2, Denoising strength: 0.4"),
        "txt2img"
    );
    assert_eq!(infer_generation_type("a plain prompt"), "txt2img");
    assert_eq!(infer_generation_type("   "), "unknown");
}

#[test]
fn weighted_token_without_number_keeps_colon() {
    let tags = extract_tags("(style:soft), plain");
    assert!(tags.contains(&"style:soft".to_string()));
    assert!(tags.contains(&"plain".to_string()));
}

#[test]
fn steps_on_the_negative_line_still_split_sections() {
    let params = parse_a1111_metadata("a prompt\nNegative prompt: bad Steps: 5, Seed: 9");
    assert_eq!(params.prompt, "a prompt");
    assert_eq!(params.negative_prompt, "bad");
    assert_eq!(params.steps.as_deref(), Some("5"));
    assert_eq!(params.seed.as_deref(), Some("9"));
}

#[test]
fn bare_parameter_block_has_no_prompt() {
    let params = parse_a1111_metadata("Steps: 4, Sampler: Euler");
    assert!(params.prompt.is_empty());
    assert_eq!(params.steps.as_deref(), Some("4"));
}
