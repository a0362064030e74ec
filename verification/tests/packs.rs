use quill::defs::{ComponentDefError, DefOutline, MeasureCheck, SectionOutline};
use quill::load::LoadError;
use quill::container::EntryPlan;
use quill::pack::{
    claim_pack_items, extraction_description, furniture_assets, install_check, qpack_entry, qpack_payload_name, validate_components,
    PackOutline,
};

fn def(name: &str) -> DefOutline {
    DefOutline {
        version: 1,
        name: name.into(),
        panel_measures: vec![MeasureCheck { field: "panel.padding_pt".into(), value: "4".into(), acceptable: true }],
        sections: vec![SectionOutline { source: "name".into(), style: "body".into(), repeat: false, measures: vec![] }],
    }
}

fn pack() -> PackOutline {
    PackOutline {
        name: "vault".into(),
        version: "1.0.0".into(),
        source: "https://example.invalid".into(),
        license: "CC-BY-4.0".into(),
        asset_paths: vec!["assets/map.png".into()],
        components: vec![("statblock".into(), def("statblock"))],
    }
}

#[test]
fn a_provenanced_pack_validates() {
    assert_eq!(pack().validate(), Ok(()));
}

#[test]
fn a_pack_without_provenance_is_refused() {
    let mut p = pack();
    p.license = "  ".into();
    assert_eq!(
        p.validate(),
        Err(LoadError::PackMissingProvenance { pack: "vault".into(), field: "license".into() })
    );
    let mut q = pack();
    q.version = String::new();
    assert_eq!(q.validate(), Err(LoadError::PackParse("pack `vault` has an empty `version`".into())));
}

#[test]
fn an_escaping_asset_path_is_refused() {
    let mut p = pack();
    p.asset_paths.push("../../etc/passwd".into());
    assert_eq!(
        p.validate(),
        Err(LoadError::PackUnsafePath { pack: "vault".into(), path: "../../etc/passwd".into() })
    );
}

#[test]
fn a_definition_filed_under_another_name_is_refused() {
    let mut p = pack();
    p.components = vec![("table".into(), def("statblock"))];
    assert_eq!(
        p.validate(),
        Err(LoadError::ComponentDef(ComponentDefError::NameMismatch { key: "table".into(), def: "statblock".into() }))
    );
    assert_eq!(
        validate_components(&vec![("table".into(), def("statblock"))]),
        Err(LoadError::ComponentDef(ComponentDefError::NameMismatch { key: "table".into(), def: "statblock".into() }))
    );
}

fn claims(list: &[(&str, &[&str])]) -> Vec<(String, Vec<String>)> {
    list.iter().map(|(p, items)| (p.to_string(), items.iter().map(|i| i.to_string()).collect())).collect()
}

#[test]
fn two_packs_claiming_one_component_is_a_conflict_naming_both() {
    let packs = claims(&[("alpha", &["statblock", "move"]), ("beta", &["sidebar", "move"])]);
    assert_eq!(
        claim_pack_items(&packs, "component"),
        Err(LoadError::PackConflict {
            what: "component".into(),
            item: "move".into(),
            first: "alpha".into(),
            second: "beta".into(),
        })
    );
}

#[test]
fn distinct_claims_are_collected_pack_by_pack() {
    let packs = claims(&[("alpha", &["statblock", "move"]), ("beta", &[]), ("gamma", &["sidebar"])]);
    assert_eq!(claim_pack_items(&packs, "template"), Ok(vec![(0, 0), (0, 1), (2, 0)]));
    assert_eq!(claim_pack_items(&Vec::new(), "template"), Ok(vec![]));
}

#[test]
fn one_pack_listing_a_template_twice_is_refused_too() {
    let packs = claims(&[("alpha", &["move", "move"])]);
    assert_eq!(
        claim_pack_items(&packs, "template"),
        Err(LoadError::PackConflict {
            what: "template".into(),
            item: "move".into(),
            first: "alpha".into(),
            second: "alpha".into(),
        })
    );
}

#[test]
fn a_broken_definition_is_refused_before_a_later_one() {
    let mut broken = def("statblock");
    broken.version = 99;
    let list = vec![("statblock".to_string(), broken), ("table".to_string(), def("other"))];
    assert!(matches!(validate_components(&list), Err(LoadError::ComponentDef(ComponentDefError::UnsupportedVersion { .. }))));
    assert_eq!(validate_components(&vec![("statblock".to_string(), def("statblock"))]), Ok(()));
}

#[test]
fn a_different_pack_at_the_same_name_and_version_is_refused_unless_forced() {
    let p = pack();
    assert_eq!(
        install_check(&p, "/packs/vault/1.0.0", Some(false), false),
        Err(LoadError::PackAlreadyInstalled {
            pack: "vault".into(),
            version: "1.0.0".into(),
            path: "/packs/vault/1.0.0".into(),
        })
    );
    assert_eq!(install_check(&p, "/packs/vault/1.0.0", Some(false), true), Ok(()));
    assert_eq!(install_check(&p, "/packs/vault/1.0.0", Some(true), false), Ok(()));
    assert_eq!(install_check(&p, "/packs/vault/1.0.0", None, false), Ok(()));
    let mut unprovenanced = pack();
    unprovenanced.source = String::new();
    assert!(matches!(
        install_check(&unprovenanced, "/packs/vault/1.0.0", None, true),
        Err(LoadError::PackMissingProvenance { .. })
    ));
}

#[test]
fn only_furniture_art_travels_with_an_extracted_pack() {
    let furniture: Vec<String> = vec!["ornament".into(), "logo".into()];
    let assets: Vec<String> = vec!["map".into(), "logo".into(), "portrait".into(), "ornament".into()];
    assert_eq!(furniture_assets(&furniture, &assets), vec![1, 3]);
    assert_eq!(furniture_assets(&Vec::new(), &assets), Vec::<usize>::new());
    assert_eq!(extraction_description(12), "Extracted from a document with 12 block(s).");
}

#[test]
fn opening_a_pack_skips_its_manifest_and_refuses_an_escaping_entry() {
    assert_eq!(qpack_entry("vault", "pack.json", false), Ok(EntryPlan::Skip));
    assert_eq!(qpack_entry("vault", "./assets//map.png", false), Ok(EntryPlan::File("assets/map.png".into())));
    assert_eq!(qpack_entry("vault", "assets/", true), Ok(EntryPlan::Directory("assets".into())));
    assert_eq!(
        qpack_entry("vault", "../../etc/passwd", false),
        Err(LoadError::PackUnsafePath { pack: "vault".into(), path: "../../etc/passwd".into() })
    );
    assert_eq!(qpack_payload_name("vault", "assets/map.png"), Ok(()));
    assert_eq!(
        qpack_payload_name("vault", "/abs"),
        Err(LoadError::PackUnsafePath { pack: "vault".into(), path: "/abs".into() })
    );
}

#[test]
fn a_traversing_asset_path_is_refused_in_the_manifest() {
    for bad in ["../../etc/passwd", "/etc/passwd", "assets/../../out.png"] {
        let mut p = pack();
        p.asset_paths = vec![bad.into()];
        let err = p.validate().expect_err("not an installable asset path");
        assert!(matches!(&err, LoadError::PackUnsafePath { path, .. } if path == bad), "{bad}: {err:?}");
    }
}

#[test]
fn a_malformed_component_definition_is_refused_at_the_container_boundary() {
    let mut p = pack();
    let mut broken = def("statblock");
    broken.sections.clear();
    p.components.push(("broken".into(), broken));
    let err = p.validate().expect_err("a malformed definition is refused");
    assert!(matches!(err, LoadError::ComponentDef(_)), "{err:?}");
}
