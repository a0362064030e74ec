use quill::defs::{ComponentDefError, DefOutline, MeasureCheck, SectionOutline, COMPONENT_DEF_VERSION};

fn section(source: &str, repeat: bool) -> SectionOutline {
    SectionOutline { source: source.into(), style: "body".into(), repeat, measures: vec![] }
}

fn ok_def() -> DefOutline {
    DefOutline {
        version: COMPONENT_DEF_VERSION,
        name: "thing".into(),
        panel_measures: vec![MeasureCheck { field: "panel.padding_pt".into(), value: "4".into(), acceptable: true }],
        sections: vec![section("name", false)],
    }
}

#[test]
fn a_well_formed_definition_validates() {
    assert_eq!(ok_def().validate(), Ok(()));
}

#[test]
fn a_newer_version_is_refused_by_name() {
    let mut d = ok_def();
    d.version = COMPONENT_DEF_VERSION + 1;
    let err = d.validate().unwrap_err();
    assert_eq!(
        err,
        ComponentDefError::UnsupportedVersion { def: "thing".into(), found: COMPONENT_DEF_VERSION + 1, supported: COMPONENT_DEF_VERSION }
    );
}

#[test]
fn malformed_shapes_are_each_their_own_error() {
    let mut empty_name = ok_def();
    empty_name.name = "  ".into();
    assert_eq!(empty_name.validate(), Err(ComponentDefError::EmptyName));

    let mut no_sections = ok_def();
    no_sections.sections.clear();
    assert!(matches!(no_sections.validate(), Err(ComponentDefError::NoSections { .. })));

    let mut no_source = ok_def();
    no_source.sections[0].source = String::new();
    assert!(matches!(no_source.validate(), Err(ComponentDefError::SectionMissingSource { index: 0, .. })));

    let mut no_style = ok_def();
    no_style.sections[0].style = String::new();
    assert!(matches!(no_style.validate(), Err(ComponentDefError::SectionMissingStyle { index: 0, .. })));

    let mut dup = ok_def();
    dup.sections.push(section("name", false));
    assert!(matches!(dup.validate(), Err(ComponentDefError::DuplicateSectionSource { .. })));
}

#[test]
fn a_repeat_section_must_come_before_every_ordinary_one() {
    let mut ok = ok_def();
    ok.sections = vec![section("header", true), section("rows", false)];
    assert_eq!(ok.validate(), Ok(()));

    let mut two = ok_def();
    two.sections = vec![section("banner", true), section("header", true), section("rows", false)];
    assert_eq!(two.validate(), Ok(()));

    let mut bad = ok_def();
    bad.sections = vec![section("intro", false), section("banner", true), section("meat", false)];
    let err = bad.validate().unwrap_err();
    assert!(matches!(err, ComponentDefError::RepeatNotAPrefix { index: 1, .. }), "{err:?}");
    assert!(matches!(err, ComponentDefError::RepeatNotAPrefix { ref def, .. } if def == "thing"));
}

#[test]
fn a_negative_or_infinite_measurement_is_refused() {
    let mut d = ok_def();
    d.panel_measures[0].acceptable = false;
    assert!(matches!(
        d.validate(),
        Err(ComponentDefError::BadMeasure { ref field, .. }) if field == "panel.padding_pt"
    ));

    let mut rule = ok_def();
    rule.sections[0].measures = vec![
        MeasureCheck { field: "rule_above.thickness_pt".into(), value: "4".into(), acceptable: true },
        MeasureCheck { field: "rule_above.gap_above_pt".into(), value: "-1".into(), acceptable: false },
    ];
    assert_eq!(
        rule.validate(),
        Err(ComponentDefError::BadMeasure { def: "thing".into(), field: "rule_above.gap_above_pt".into(), value: "-1".into() })
    );
}
