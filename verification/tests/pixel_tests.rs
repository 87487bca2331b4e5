use aio_base_backend::pixel_creation_types::{
    validate_payload_size, validate_pixel_art_source, Frame, PixelArtSource, ProjectStore, SourceMeta,
};

fn two_by_two() -> PixelArtSource {
    PixelArtSource {
        width: 2,
        height: 2,
        palette: vec!["#000000".to_string(), "#FFFFFF".to_string()],
        pixels: vec![vec![0, 1], vec![1, 0]],
        frames: None,
        metadata: None,
    }
}

#[test]
fn test_validation_errors() {
    let mut source = PixelArtSource {
        width: 0,
        height: 2,
        palette: vec!["#000000".to_string()],
        pixels: vec![],
        frames: None,
        metadata: None,
    };

    assert!(validate_pixel_art_source(&source).is_err());

    source.width = 2;
    source.height = 2;
    source.pixels = vec![vec![0]];

    assert!(validate_pixel_art_source(&source).is_err());

    source.pixels = vec![vec![0, 2], vec![0, 0]];

    assert!(validate_pixel_art_source(&source).is_err());
}

#[test]
fn test_pixel_art_creation_and_export() {
    let source = PixelArtSource {
        width: 2,
        height: 2,
        palette: vec!["#000000".to_string(), "#FFFFFF".to_string()],
        pixels: vec![vec![0, 1], vec![1, 0]],
        frames: None,
        metadata: Some(SourceMeta {
            title: Some("Test Art".to_string()),
            description: Some("A simple test pattern".to_string()),
            tags: Some(vec!["test".to_string(), "pattern".to_string()]),
        }),
    };

    assert!(validate_pixel_art_source(&source).is_ok());
    assert!(validate_payload_size(&source).is_ok());
}

#[test]
fn validation_messages_name_the_first_fault() {
    let mut s = two_by_two();
    s.height = 3;
    assert_eq!(validate_pixel_art_source(&s).unwrap_err(), "Pixels height 2 doesn't match specified height 3");
    let mut s = two_by_two();
    s.pixels = vec![vec![0, 1], vec![1]];
    assert_eq!(validate_pixel_art_source(&s).unwrap_err(), "Row 1 width 1 doesn't match specified width 2");
    let mut s = two_by_two();
    s.pixels = vec![vec![0, 1], vec![1, 7]];
    assert_eq!(
        validate_pixel_art_source(&s).unwrap_err(),
        "Pixel at (1, 1) has palette index 7 which exceeds palette size 2"
    );
    let mut s = two_by_two();
    s.frames = Some(vec![Frame { duration_ms: 100, pixels: vec![vec![0, 1]] }]);
    assert_eq!(validate_pixel_art_source(&s).unwrap_err(), "Frame 0 height 1 doesn't match source height 2");
    let mut s = two_by_two();
    s.frames = Some(vec![
        Frame { duration_ms: 100, pixels: vec![vec![0, 1], vec![1, 0]] },
        Frame { duration_ms: 100, pixels: vec![vec![0, 1], vec![1, 5]] },
    ]);
    assert_eq!(
        validate_pixel_art_source(&s).unwrap_err(),
        "Frame 1 pixel at (1, 1) has palette index 5 which exceeds palette size 2"
    );
}

#[test]
fn payload_limit_is_one_mebibyte() {
    let mut s = two_by_two();
    s.palette = vec!["#".repeat(1048576 - 8 - 8), "".to_string()];
    assert!(validate_payload_size(&s).is_ok());
    s.palette = vec!["#".repeat(1048576 - 8 - 8 + 1), "".to_string()];
    assert_eq!(
        validate_payload_size(&s).unwrap_err(),
        "Payload size 1048577 bytes exceeds maximum allowed size 1048576 bytes"
    );
}

#[test]
fn projects_versions_and_export() {
    let mut store = ProjectStore::new();
    let id = store
        .create_project("owner-1".to_string(), two_by_two(), Some("first".to_string()), 5_000_000, "proj_a".to_string(), "ver_1".to_string())
        .unwrap();
    assert_eq!(id, "proj_a");
    let p = store.get_project("proj_a".to_string()).unwrap();
    assert_eq!(p.created_at, 5);
    assert_eq!(p.history.len(), 1);
    assert_eq!(
        store
            .save_version("other".to_string(), "proj_a".to_string(), two_by_two(), None, None, 6_000_000, "ver_2".to_string())
            .unwrap_err(),
        "Only project owner can save new versions"
    );
    assert_eq!(
        store
            .save_version("owner-1".to_string(), "proj_a".to_string(), two_by_two(), None, Some("ver_x".to_string()), 6_000_000, "ver_2".to_string())
            .unwrap_err(),
        "Version mismatch: expected ver_x, current ver_1"
    );
    let v = store
        .save_version("owner-1".to_string(), "proj_a".to_string(), two_by_two(), None, Some("ver_1".to_string()), 7_000_000, "ver_2".to_string())
        .unwrap();
    assert_eq!(v, "ver_2");
    let p = store.get_project("proj_a".to_string()).unwrap();
    assert_eq!(p.current_version.version_id, "ver_2");
    assert_eq!(p.history.len(), 2);
    assert_eq!(p.updated_at, 7);
    assert_eq!(store.get_version("proj_a".to_string(), "ver_1".to_string()).unwrap().version_id, "ver_1");
    assert!(store.get_version("proj_a".to_string(), "ver_9".to_string()).is_none());
    let compact = store.export_for_device("proj_a".to_string(), None).unwrap();
    assert_eq!(compact.art_type, "pixel_art@1");
    assert_eq!(compact.pixels, Some(vec![vec![0, 1], vec![1, 0]]));
    assert!(compact.frames.is_none());
    assert_eq!(store.export_for_device("nope".to_string(), None).unwrap_err(), "Project not found");
    assert_eq!(store.export_for_device("proj_a".to_string(), Some("ver_9".to_string())).unwrap_err(), "Version not found");
    assert_eq!(store.get_project_count_by_owner("owner-1".to_string()), 1);
    assert_eq!(store.list_projects_by_owner("owner-1".to_string(), 0, 10).len(), 1);
    assert_eq!(store.list_projects_by_owner("owner-1".to_string(), 1, 10).len(), 0);
    assert_eq!(store.delete_project("other".to_string(), "proj_a".to_string()).unwrap_err(), "Only project owner can delete the project");
    assert_eq!(store.delete_project("owner-1".to_string(), "proj_a".to_string()), Ok(true));
    assert_eq!(store.delete_project("owner-1".to_string(), "proj_a".to_string()), Ok(false));
    assert_eq!(store.get_total_project_count(), 0);
}

#[test]
fn test_compact_export_format() {
    let source = PixelArtSource {
        width: 2,
        height: 2,
        palette: vec!["#000000".to_string(), "#FFFFFF".to_string()],
        pixels: vec![vec![0, 1], vec![1, 0]],
        frames: None,
        metadata: None,
    };
    let mut store = ProjectStore::new();
    store
        .create_project("owner".to_string(), source, None, 0, "proj".to_string(), "ver".to_string())
        .unwrap();
    let compact = store.export_for_device("proj".to_string(), None).unwrap();
    assert_eq!(compact.art_type, "pixel_art@1");
    assert_eq!(compact.width, 2);
    assert_eq!(compact.height, 2);
    assert_eq!(compact.palette, vec!["#000000".to_string(), "#FFFFFF".to_string()]);
    assert_eq!(compact.pixels, Some(vec![vec![0, 1], vec![1, 0]]));
    assert!(compact.frames.is_none());

    let mut fields = serde_json::Map::new();
    fields.insert("type".to_string(), serde_json::Value::String(compact.art_type.clone()));
    fields.insert(
        "palette".to_string(),
        serde_json::Value::Array(compact.palette.iter().map(|c| serde_json::Value::String(c.clone())).collect()),
    );
    let json = serde_json::to_string(&serde_json::Value::Object(fields)).unwrap();
    assert!(json.contains("pixel_art@1"));
    assert!(json.contains("#000000"));
    assert!(json.contains("#FFFFFF"));
}

#[test]
fn canvas_palette_and_frame_limits_are_enforced() {
    let mut s = two_by_two();
    s.width = 513;
    assert_eq!(validate_pixel_art_source(&s).unwrap_err(), "Width and height must not exceed 512");
    let mut s = two_by_two();
    s.palette = vec!["#000000".to_string(); 257];
    assert_eq!(validate_pixel_art_source(&s).unwrap_err(), "Palette size 257 exceeds the maximum of 256 colors");
    let mut s = two_by_two();
    s.palette = vec!["#000000".to_string(), "zz".to_string()];
    assert_eq!(validate_pixel_art_source(&s).unwrap_err(), "Palette color 1 is not a #RRGGBB hex color");
    let mut s = two_by_two();
    s.palette = vec!["#00000G".to_string(), "#FFFFFF".to_string()];
    assert_eq!(validate_pixel_art_source(&s).unwrap_err(), "Palette color 0 is not a #RRGGBB hex color");
    let mut s = two_by_two();
    s.palette = vec!["#abcDEF".to_string(), "#012345".to_string()];
    assert!(validate_pixel_art_source(&s).is_ok());
    let mut s = two_by_two();
    s.frames = Some((0..61).map(|_| Frame { duration_ms: 100, pixels: vec![vec![0, 1], vec![1, 0]] }).collect());
    assert_eq!(validate_pixel_art_source(&s).unwrap_err(), "Frame count 61 exceeds the maximum of 60 frames");
    let mut s = two_by_two();
    s.frames = Some((0..60).map(|_| Frame { duration_ms: 100, pixels: vec![vec![0, 1], vec![1, 0]] }).collect());
    assert!(validate_pixel_art_source(&s).is_ok());
    let one = PixelArtSource { width: 1, height: 1, palette: vec!["#FFFFFF".to_string()], pixels: vec![vec![0]], frames: None, metadata: None };
    assert!(validate_pixel_art_source(&one).is_ok());
}
