use quill::styles::{character_source, paragraph_style_slot, requested_style_name, tab_stop_slot, CharacterSource, StyleRequest};

fn sheet() -> Vec<String> {
    vec!["body".into(), "h1".into(), "h2".into(), "caption".into()]
}

#[test]
fn an_unstyled_heading_takes_its_level_style() {
    let h = StyleRequest::Heading { style: None, level: 2 };
    assert_eq!(requested_style_name(&h), Some("h2".to_string()));
    assert_eq!(paragraph_style_slot(&sheet(), &h), Some(2));
    // Levels outside 1..=6 are held to the nearest.
    assert_eq!(requested_style_name(&StyleRequest::Heading { style: None, level: 9 }), Some("h6".to_string()));
}

#[test]
fn a_named_style_wins_and_an_unknown_one_falls_back_to_body() {
    let named = StyleRequest::Body { style: Some("caption".into()) };
    assert_eq!(paragraph_style_slot(&sheet(), &named), Some(3));
    let unknown = StyleRequest::Heading { style: Some("fancy".into()), level: 1 };
    assert_eq!(paragraph_style_slot(&sheet(), &unknown), Some(0));
    // With no `body` either, the default treatment.
    assert_eq!(paragraph_style_slot(&vec!["h1".to_string()], &unknown), None);
}

#[test]
fn a_composite_block_takes_the_default_treatment() {
    assert_eq!(paragraph_style_slot(&sheet(), &StyleRequest::Composite), None);
    assert_eq!(tab_stop_slot(&sheet(), &StyleRequest::Composite), None);
}

#[test]
fn tab_stops_do_not_fall_back_to_body() {
    let tabs: Vec<String> = vec!["body".into(), "toc-1".into()];
    assert_eq!(tab_stop_slot(&tabs, &StyleRequest::Body { style: Some("toc-1".into()) }), Some(1));
    assert_eq!(tab_stop_slot(&tabs, &StyleRequest::Body { style: Some("other".into()) }), None);
    assert_eq!(tab_stop_slot(&tabs, &StyleRequest::Body { style: None }), Some(0));
}

#[test]
fn a_documents_character_style_shadows_the_built_in_one() {
    let defined: Vec<String> = vec!["strong".into()];
    let builtin: Vec<String> = vec!["emphasis".into(), "strong".into()];
    assert_eq!(character_source(&defined, &builtin, "strong"), Some(CharacterSource::Defined(0)));
    assert_eq!(character_source(&defined, &builtin, "emphasis"), Some(CharacterSource::Builtin(0)));
    assert_eq!(character_source(&defined, &builtin, "nothing"), None);
}
