use forge_meta_link::scan::filter_changed;
use forge_meta_link::scan::ScannedFile;
use forge_meta_link::sidecar::read_sidecar;
use forge_meta_link::sidecar::write_sidecar_text;
use forge_meta_link::sidecar::SidecarData;

fn scanned(path: &str, mtime: Option<i64>) -> ScannedFile {
    ScannedFile { path: path.to_string(), file_mtime: mtime, file_size: Some(10) }
}

#[test]
fn unchanged_rescan_processes_nothing() {
    let stored = vec![("a.png".to_string(), 100i64), ("b.png".to_string(), 200i64)];
    let files = vec![scanned("a.png", Some(100)), scanned("b.png", Some(200))];
    let changed = filter_changed(files, &stored);
    assert!(changed.is_empty());
}

#[test]
fn changed_file_filtering_is_exact() {
    let stored = vec![("a.png".to_string(), 100i64), ("b.png".to_string(), 200i64)];
    let files = vec![
        scanned("a.png", Some(100)),
        scanned("b.png", Some(201)),
        scanned("c.png", Some(5)),
        scanned("d.png", None),
    ];
    let changed = filter_changed(files, &stored);
    let names: Vec<&str> = changed.iter().map(|f| f.path.as_str()).collect();
    assert_eq!(names, vec!["b.png", "c.png", "d.png"]);
}

#[test]
fn sidecar_reads_json_content() {
    let data = read_sidecar(r#"{"tags":["hello","world"],"notes":"test note"}"#, true)
        .expect("should read JSON sidecar");
    assert_eq!(data.tags, vec!["hello", "world"]);
    assert_eq!(data.notes.as_deref(), Some("test note"));
    assert_eq!(data.rating, None);
}

#[test]
fn sidecar_reads_yaml_content_round_trip() {
    let data = SidecarData {
        tags: vec!["landscape".into(), "cat".into()],
        notes: Some("A nice image".into()),
        rating: Some(5),
    };
    let text = write_sidecar_text(&data);
    let read_back = read_sidecar(text.as_str(), false).expect("should read sidecar");
    assert_eq!(read_back.tags, vec!["landscape", "cat"]);
    assert_eq!(read_back.notes.as_deref(), Some("A nice image"));
    assert_eq!(read_back.rating, Some(5));
}

#[test]
fn sidecar_rejects_out_of_range_rating() {
    assert!(read_sidecar(r#"{"tags":[],"rating":300}"#, true).is_none());
    assert!(read_sidecar(r#"{"tags":"not-a-list"}"#, true).is_none());
    assert!(read_sidecar("not valid json", true).is_none());
}
