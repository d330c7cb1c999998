use forge_meta_link::parser::GenerationParams;
use forge_meta_link::store::BulkRecord;
use forge_meta_link::store::Database;

fn insert_with_prompt(db: &mut Database, filepath: &str, prompt: &str, tags: &[&str]) {
    let params = GenerationParams {
        prompt: prompt.to_string(),
        raw_metadata: prompt.to_string(),
        ..Default::default()
    };

    let image_id = db.upsert_image(filepath, filepath, "c:\\images", &params, Some(1));

    let normalized_tags: Vec<String> = tags.iter().map(|tag| tag.to_string()).collect();
    db.replace_image_tags(image_id, &normalized_tags);
}

#[test]
fn test_search_uses_prefix_query_and_returns_expected_best_match() {
    let mut db = Database::new();
    insert_with_prompt(&mut db, "a.png", "cat hero portrait", &["cat", "hero"]);
    insert_with_prompt(&mut db, "b.png", "cat landscape", &["cat", "landscape"]);

    let results = db.search("cat hero", 10, 0);
    assert_eq!(results.len(), 1);
    assert_eq!(results[0].filepath, "a.png");
}

#[test]
fn test_filter_images_by_include_and_exclude_tags() {
    let mut db = Database::new();
    insert_with_prompt(&mut db, "a.png", "cat hero portrait", &["cat", "hero"]);
    insert_with_prompt(&mut db, "b.png", "cat landscape", &["cat", "landscape"]);

    let with_tags = vec!["cat".to_string()];
    let without_tags = vec!["landscape".to_string()];
    let results = db.filter_images(None, &with_tags, &without_tags, 10, 0);

    assert_eq!(results.len(), 1);
    assert_eq!(results[0].filepath, "a.png");
}

#[test]
fn test_cursor_pagination_returns_correct_pages() {
    let mut db = Database::new();
    insert_with_prompt(&mut db, "a.png", "first", &[]);
    insert_with_prompt(&mut db, "b.png", "second", &[]);
    insert_with_prompt(&mut db, "c.png", "third", &[]);

    let page1 = db.get_images_cursor(None, 2, None, None, None, None);
    assert_eq!(page1.items.len(), 2);
    assert!(page1.next_cursor.is_some());

    let page2 = db.get_images_cursor(page1.next_cursor.as_deref(), 2, None, None, None, None);
    assert_eq!(page2.items.len(), 1);
}

#[test]
fn test_trigram_search_finds_substring() {
    let mut db = Database::new();
    insert_with_prompt(&mut db, "a.png", "concatenation is fun", &[]);
    insert_with_prompt(&mut db, "b.png", "hello world", &[]);

    let results = db.search_trigram("cat", 10, 0);
    assert_eq!(results.len(), 1);
    assert_eq!(results[0].filepath, "a.png");
}

#[test]
fn test_filter_images_falls_back_to_trigram_for_substring_queries() {
    let mut db = Database::new();
    insert_with_prompt(&mut db, "a.png", "donald trump portrait", &["portrait"]);
    insert_with_prompt(&mut db, "b.png", "landscape painting", &["landscape"]);

    let with_tags = vec!["portrait".to_string()];
    let results = db.filter_images(Some("ump"), &with_tags, &Vec::new(), 10, 0);

    assert_eq!(results.len(), 1);
    assert_eq!(results[0].filepath, "a.png");
}

#[test]
fn test_grid_filter_matches_txt2img_grids_directory_fallback() {
    let mut db = Database::new();

    let grid_path =
        "E:\\1AHOLD\\webui_forge_cu121_torch231\\webui\\outputs\\txt2img-grids\\2025-09-16\\grid-0001.png";
    let normal_path =
        "E:\\1AHOLD\\webui_forge_cu121_torch231\\webui\\outputs\\txt2img-images\\2025-09-16\\0001.png";

    let grid_params = GenerationParams {
        prompt: "test grid image".to_string(),
        raw_metadata: "test grid image".to_string(),
        ..Default::default()
    };
    let normal_params = GenerationParams {
        prompt: "test normal image".to_string(),
        raw_metadata: "test normal image".to_string(),
        ..Default::default()
    };

    db.upsert_image(
        grid_path,
        "grid-0001.png",
        "E:\\1AHOLD\\webui_forge_cu121_torch231\\webui\\outputs\\txt2img-grids\\2025-09-16",
        &grid_params,
        Some(1),
    );
    db.upsert_image(
        normal_path,
        "0001.png",
        "E:\\1AHOLD\\webui_forge_cu121_torch231\\webui\\outputs\\txt2img-images\\2025-09-16",
        &normal_params,
        Some(1),
    );

    let gts = vec!["grid".to_string()];
    let page = db.get_images_cursor(None, 50, None, Some(&gts), None, None);

    assert_eq!(page.items.len(), 1);
    assert_eq!(page.items[0].filepath, grid_path);
}

#[test]
fn test_bulk_upsert_with_tags() {
    let mut db = Database::new();

    let records = vec![
        BulkRecord {
            filepath: "a.png".to_string(),
            filename: "a.png".to_string(),
            directory: "c:\\images".to_string(),
            params: GenerationParams {
                prompt: "cat portrait".to_string(),
                raw_metadata: "cat portrait".to_string(),
                ..Default::default()
            },
            file_mtime: Some(100),
            file_size: Some(1000),
            quick_hash: Some("aaaabbbbccccdddd11112222".to_string()),
            tags: vec!["cat".to_string(), "portrait".to_string()],
        },
        BulkRecord {
            filepath: "b.png".to_string(),
            filename: "b.png".to_string(),
            directory: "c:\\images".to_string(),
            params: GenerationParams {
                prompt: "dog landscape".to_string(),
                raw_metadata: "dog landscape".to_string(),
                ..Default::default()
            },
            file_mtime: Some(200),
            file_size: Some(2000),
            quick_hash: Some("eeeeffff0000111122223333".to_string()),
            tags: vec!["dog".to_string(), "landscape".to_string()],
        },
    ];

    let count = db.bulk_upsert_with_tags(&records);
    assert_eq!(count, 2);
    assert_eq!(db.get_total_count(), 2);
}

#[test]
fn test_get_all_file_mtimes() {
    let mut db = Database::new();
    insert_with_prompt(&mut db, "a.png", "test", &[]);
    insert_with_prompt(&mut db, "b.png", "test", &[]);

    let mtimes = db.get_all_file_mtimes();
    assert_eq!(mtimes.len(), 2);
    assert_eq!(
        mtimes.iter().find(|p| p.0 == "a.png").map(|p| p.1),
        Some(1)
    );
    assert_eq!(
        mtimes.iter().find(|p| p.0 == "b.png").map(|p| p.1),
        Some(1)
    );
}

#[test]
fn re_upsert_updates_in_place_without_duplicates() {
    let mut db = Database::new();

    let mk = |prompt: &str, tags: &[&str]| BulkRecord {
        filepath: "a.png".to_string(),
        filename: "a.png".to_string(),
        directory: "d".to_string(),
        params: GenerationParams {
            prompt: prompt.to_string(),
            raw_metadata: prompt.to_string(),
            ..Default::default()
        },
        file_mtime: Some(5),
        file_size: None,
        quick_hash: None,
        tags: tags.iter().map(|t| t.to_string()).collect(),
    };

    let first = vec![mk("old prompt", &["one", "two"])];
    db.bulk_upsert_with_tags(&first);
    assert_eq!(db.get_total_count(), 1);

    let second = vec![mk("new prompt", &["three"])];
    db.bulk_upsert_with_tags(&second);
    assert_eq!(db.get_total_count(), 1);

    let id = db.get_image_id_by_filepath("a.png").unwrap();
    let rec = db.get_image_by_id(id).unwrap();
    assert_eq!(rec.prompt, "new prompt");
    assert_eq!(db.get_tags_for_image(id), vec!["three".to_string()]);
}

#[test]
fn cursor_pages_are_disjoint_across_sort_modes() {
    let mut db = Database::new();
    let mut mk = |path: &str, model: &str| {
        let params = GenerationParams {
            prompt: format!("image in {model}"),
            raw_metadata: "x".to_string(),
            model_name: Some(model.to_string()),
            ..Default::default()
        };
        db.upsert_image(path, path, "d", &params, Some(1));
    };
    mk("b.png", "beta");
    mk("a.png", "alpha");
    mk("c.png", "gamma");

    for mode in ["newest", "oldest", "name_asc", "name_desc", "model", "generation_type"] {
        let page1 = db.get_images_cursor(None, 2, Some(mode), None, None, None);
        assert_eq!(page1.items.len(), 2, "mode {mode}");
        let page2 =
            db.get_images_cursor(page1.next_cursor.as_deref(), 2, Some(mode), None, None, None);
        assert_eq!(page2.items.len(), 1, "mode {mode}");
        for one in &page1.items {
            for two in &page2.items {
                assert_ne!(one.id, two.id, "mode {mode}");
            }
        }
        let page3 =
            db.get_images_cursor(page2.next_cursor.as_deref(), 2, Some(mode), None, None, None);
        assert_eq!(page3.items.len(), 0, "mode {mode}");
    }
}

#[test]
fn list_tags_filters_by_prefix_in_order() {
    let mut db = Database::new();
    insert_with_prompt(&mut db, "a.png", "x", &["castle", "cat", "dog", "cab"]);
    assert_eq!(
        db.list_tags(Some("ca"), 10),
        vec!["cab".to_string(), "castle".to_string(), "cat".to_string()]
    );
    assert_eq!(db.list_tags(Some("ca"), 2), vec!["cab".to_string(), "castle".to_string()]);
    assert_eq!(db.list_tags(None, 1), vec!["cab".to_string()]);
}

#[test]
fn delete_cascades_rows() {
    let mut db = Database::new();
    insert_with_prompt(&mut db, "a.png", "x", &["cat"]);
    insert_with_prompt(&mut db, "b.png", "y", &["dog"]);
    let id = db.get_image_id_by_filepath("a.png").unwrap();
    let n = db.delete_images_by_ids(&vec![id]);
    assert_eq!(n, 1);
    assert_eq!(db.get_total_count(), 1);
    assert!(db.get_image_id_by_filepath("a.png").is_none());
    assert!(db.get_tags_for_image(id).is_empty());
}

#[test]
fn top_tags_rank_by_usage_then_name() {
    let mut db = Database::new();
    insert_with_prompt(&mut db, "a.png", "x", &["cat", "dog"]);
    insert_with_prompt(&mut db, "b.png", "y", &["cat", "bird"]);
    insert_with_prompt(&mut db, "c.png", "z", &["cat", "dog"]);

    let top = db.get_top_tags(10);
    let pairs: Vec<(&str, u32)> = top.iter().map(|t| (t.tag.as_str(), t.count)).collect();
    assert_eq!(pairs, vec![("cat", 3), ("dog", 2), ("bird", 1)]);

    let top2 = db.get_top_tags(2);
    assert_eq!(top2.len(), 2);
    assert_eq!(top2[0].tag, "cat");
}

#[test]
fn group_by_views_count_directories_and_models() {
    let mut db = Database::new();
    let mut put = |path: &str, dir: &str, model: Option<&str>| {
        let params = GenerationParams {
            prompt: "p".to_string(),
            raw_metadata: "p".to_string(),
            model_name: model.map(|m| m.to_string()),
            ..Default::default()
        };
        db.upsert_image(path, path, dir, &params, Some(1));
    };
    put("a.png", "d1", Some("alpha"));
    put("b.png", "d1", Some("alpha"));
    put("c.png", "d2", None);

    let dirs = db.get_unique_directories();
    let dir_pairs: Vec<(&str, u32)> =
        dirs.iter().map(|d| (d.directory.as_str(), d.count)).collect();
    assert_eq!(dir_pairs, vec![("d1", 2), ("d2", 1)]);

    let models = db.get_unique_models();
    let model_pairs: Vec<(&str, u32)> =
        models.iter().map(|m| (m.model_name.as_str(), m.count)).collect();
    assert_eq!(model_pairs, vec![("alpha", 2), ("Unknown", 1)]);
}

#[test]
fn favorite_and_locked_flags_survive_re_upsert() {
    let mut db = Database::new();
    insert_with_prompt(&mut db, "a.png", "x", &[]);
    let id = db.get_image_id_by_filepath("a.png").unwrap();
    db.set_image_favorite(id, true);
    db.set_image_locked(id, true);
    insert_with_prompt(&mut db, "a.png", "updated", &[]);
    let rec = db.get_image_by_id(id).unwrap();
    assert_eq!(rec.prompt, "updated");
}

#[test]
fn missing_sort_values_sort_to_the_far_end() {
    let mut db = Database::new();
    let mut put = |path: &str, model: Option<&str>| {
        let params = GenerationParams {
            prompt: "p".to_string(),
            raw_metadata: "p".to_string(),
            model_name: model.map(|m| m.to_string()),
            ..Default::default()
        };
        db.upsert_image(path, path, "d", &params, Some(1));
    };
    put("n.png", None);
    put("a.png", Some("alpha"));

    let asc = db.get_images_cursor(None, 10, Some("model"), None, None, None);
    let names: Vec<&str> = asc.items.iter().map(|g| g.filepath.as_str()).collect();
    assert_eq!(names, vec!["a.png", "n.png"]);
}

#[test]
fn later_duplicate_filepath_wins_within_one_batch() {
    let mut db = Database::new();
    let mk = |prompt: &str, tags: &[&str]| BulkRecord {
        filepath: "a.png".to_string(),
        filename: "a.png".to_string(),
        directory: "d".to_string(),
        params: GenerationParams {
            prompt: prompt.to_string(),
            raw_metadata: prompt.to_string(),
            ..Default::default()
        },
        file_mtime: Some(1),
        file_size: None,
        quick_hash: None,
        tags: tags.iter().map(|t| t.to_string()).collect(),
    };
    let batch = vec![mk("first", &[" One ", "two", "one"]), mk("second", &["Final", "final"])];
    let count = db.bulk_upsert_with_tags(&batch);
    assert_eq!(count, 2);
    assert_eq!(db.get_total_count(), 1);
    let id = db.get_image_id_by_filepath("a.png").unwrap();
    assert_eq!(db.get_image_by_id(id).unwrap().prompt, "second");
    assert_eq!(db.get_tags_for_image(id), vec!["final".to_string()]);
}
