use std::path::PathBuf;

use lemming::document::Document;
use lemming::text::PatchError;

#[test]
fn update_patch_keeps_the_parsed_patch() {
    let mut doc = Document {
        patch_string: "diff --git a/a b/b\nx\n".to_string(),
        filename: PathBuf::from("demo.patch"),
        parsed: None,
    };
    assert!(doc.update_patch().is_ok());
    let parsed = doc.parsed.as_ref().unwrap();
    assert!(parsed.metadata.is_none());
    assert_eq!(parsed.diffs.len(), 1);
    assert_eq!(parsed.diffs[0].content, "x\n");
    assert_eq!(doc.filename, PathBuf::from("demo.patch"));
}

#[test]
fn update_patch_clears_on_error() {
    let mut doc = Document {
        patch_string: "From nothing\n".to_string(),
        filename: PathBuf::from("bad.patch"),
        parsed: None,
    };
    doc.parsed = Some(lemming::patch::PatchFile { metadata: None, diffs: Vec::new() });
    assert_eq!(doc.update_patch(), Err(PatchError::Error));
    assert!(doc.parsed.is_none());
    assert_eq!(doc.patch_string, "From nothing\n");
}
