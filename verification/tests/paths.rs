use quill::container::{safe_relative_path, tpub_entry, tpub_payload_name, EntryPlan};
use quill::load::LoadError;

#[test]
fn entries_that_escape_the_extraction_root_are_refused() {
    for escaping in ["../escape.bin", "assets/../../escape.bin", "/abs/escape.bin"] {
        assert!(safe_relative_path(escaping).is_none(), "'{escaping}' should be refused");
    }
    for ok in ["assets/map.png", "./fonts/x.ttf", "thumbnails/a/b.png"] {
        assert!(safe_relative_path(ok).is_some(), "'{ok}' should be allowed");
    }
}

#[test]
fn a_safe_path_is_normalised_to_its_named_parts() {
    assert_eq!(safe_relative_path("./fonts//x.ttf").as_deref(), Some("fonts/x.ttf"));
    assert_eq!(safe_relative_path("a/./b/").as_deref(), Some("a/b"));
    assert_eq!(safe_relative_path(""), None);
    assert_eq!(safe_relative_path("./"), None);
    assert_eq!(safe_relative_path("a/.."), None);
}

#[test]
fn opening_a_document_skips_its_manifest_and_refuses_zip_slip() {
    assert_eq!(tpub_entry("document.json", false), Ok(EntryPlan::Skip));
    assert_eq!(tpub_entry("assets/map.png", false), Ok(EntryPlan::File("assets/map.png".into())));
    assert_eq!(tpub_entry("fonts/", true), Ok(EntryPlan::Directory("fonts".into())));
    assert_eq!(
        tpub_entry("../escape.bin", false),
        Err(LoadError::Container("entry '../escape.bin' escapes the extraction directory".into()))
    );
    assert_eq!(tpub_payload_name("assets/map.png"), Ok(()));
    assert_eq!(
        tpub_payload_name("assets/../../x"),
        Err(LoadError::Container("entry 'assets/../../x' is not a safe container-relative path".into()))
    );
}
