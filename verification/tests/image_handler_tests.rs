use mdit::editor::image_handler::generate_image_path;
use std::path::Path;

#[test]
fn generates_path_next_to_document() {
    let result = generate_image_path("/tmp/test.md", "png");
    let result_path = Path::new(&result);
    assert!(
        result_path.starts_with("/tmp/test-assets"),
        "image should be in a sibling assets dir: {:?}",
        result
    );
    assert_eq!(
        result_path.extension().and_then(|e| e.to_str()),
        Some("png"),
        "extension should match supplied type"
    );
}

#[test]
fn uses_uuid_as_filename() {
    let r1 = generate_image_path("/tmp/notes.md", "png");
    let r2 = generate_image_path("/tmp/notes.md", "png");
    assert_ne!(r1, r2, "each call must produce a unique filename");
}

#[test]
fn assets_dir_named_after_document() {
    let result = generate_image_path("/home/user/my-notes.md", "jpg");
    let assets_dir = Path::new(&result).parent().expect("result must have a parent dir");
    assert_eq!(
        assets_dir.file_name().and_then(|n| n.to_str()),
        Some("my-notes-assets"),
        "assets dir should be named <stem>-assets"
    );
}

#[test]
fn file_name_is_a_uuid() {
    let result = generate_image_path("/tmp/doc.md", "png");
    let file_stem = Path::new(&result)
        .file_stem()
        .and_then(|s| s.to_str())
        .expect("path must have a file stem");
    assert_eq!(file_stem.len(), 36, "hyphenated UUID file names have 36 characters");
    assert!(file_stem
        .chars()
        .all(|c| c.is_ascii_hexdigit() || c == '-'));
}
