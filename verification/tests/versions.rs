use std::cmp::Ordering;

use quill::resolve::{resolve_requirements, version_cmp, version_matches, AvailablePack, PackRequirement};
use quill::load::LoadError;

#[test]
fn the_version_rule_is_a_dotted_prefix_and_never_a_substring() {
    assert!(version_matches("1.2.0", "1.2.0"));
    assert!(!version_matches("1.2.0", "1.2.1"));
    assert!(version_matches("1.2", "1.2.0"));
    assert!(version_matches("1.2", "1.2.9"));
    assert!(!version_matches("1.2", "1.3.0"));
    assert!(version_matches("1", "1.9.3"));
    assert!(!version_matches("1", "10.0.0"));
    assert!(!version_matches("1", "2.0.0"));
    assert!(version_matches("", "anything"));
    assert!(version_matches("  ", "0.1"));
    assert!(!version_matches("1.2.0", "1.2"));
}

#[test]
fn versions_order_numerically_where_they_can() {
    assert_eq!(version_cmp("1.10.0", "1.9.0"), Ordering::Greater);
    assert_eq!(version_cmp("1.2.0", "1.2.0"), Ordering::Equal);
    assert_eq!(version_cmp("1.2", "1.2.0"), Ordering::Less);
    assert_eq!(version_cmp("2.0", "10.0"), Ordering::Less);
    assert_eq!(version_cmp("1.0-beta", "1.0-alpha"), Ordering::Greater);
}

#[test]
fn a_leading_plus_is_a_number_and_an_overflowing_component_is_text() {
    // `+7` parses as 7, as std's integer parse reads it.
    assert_eq!(version_cmp("+7", "7"), Ordering::Equal);
    // Too large for u64, so compared as text: "2…" after "1…".
    assert_eq!(version_cmp("99999999999999999999", "18446744073709551615"), Ordering::Greater);
    assert_eq!(version_cmp("1.a", "1.b"), Ordering::Less);
}

fn pack(name: &str, version: &str) -> AvailablePack {
    AvailablePack { name: name.into(), version: version.into() }
}

#[test]
fn a_requirement_resolves_to_the_highest_matching_version() {
    let installed = vec![pack("vault", "1.2.0"), pack("vault", "1.9.0"), pack("vault", "1.10.0"), pack("vault", "2.0.0")];
    let got = resolve_requirements(&[PackRequirement::new("vault", "1")], &installed, "/packs").expect("resolve");
    assert_eq!(got, vec![2], "1.10.0 is newer than 1.9.0");
    let exact = resolve_requirements(&[PackRequirement::new("vault", "1.2.0")], &installed, "/packs").expect("resolve");
    assert_eq!(exact, vec![0]);
    let any = resolve_requirements(&[PackRequirement::new("vault", "")], &installed, "/packs").expect("resolve");
    assert_eq!(any, vec![3]);
}

#[test]
fn a_missing_pack_is_a_refusal_that_says_what_is_installed() {
    let installed = vec![pack("vault", "1.2.0"), pack("other", "3.0.0")];
    let err = resolve_requirements(&[PackRequirement::new("vault", "3")], &installed, "/packs").unwrap_err();
    match err {
        LoadError::PackNotInstalled { pack, version, installed, root } => {
            assert_eq!(pack, "vault");
            assert_eq!(version, "3");
            assert_eq!(installed, vec!["1.2.0".to_string()]);
            assert_eq!(root, "/packs");
        }
        other => panic!("expected PackNotInstalled, got {other:?}"),
    }
}

#[test]
fn a_requirement_stated_twice_is_a_conflict() {
    let installed = vec![pack("vault", "1.2.0")];
    let err = resolve_requirements(
        &[PackRequirement::new("vault", "1"), PackRequirement::new("vault", "1.2")],
        &installed,
        "/packs",
    )
    .unwrap_err();
    assert_eq!(
        err,
        LoadError::PackConflict {
            what: "requirement".into(),
            item: "vault".into(),
            first: "vault".into(),
            second: "vault".into(),
        }
    );
}
