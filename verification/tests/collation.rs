use quill::collate::{collation_key, CollationKey, FOLD_FROM, FOLD_TO};
use quill::model::IndexMark;

fn key(term: &str) -> CollationKey {
    collation_key(&IndexMark::new(term), &[])
}

fn sorted(terms: &[&str]) -> Vec<String> {
    sorted_with(terms, &[])
}

fn sorted_with(terms: &[&str], articles: &[String]) -> Vec<String> {
    let mut v: Vec<&str> = terms.to_vec();
    v.sort_by_key(|t| collation_key(&IndexMark::new(t), articles));
    v.into_iter().map(str::to_string).collect()
}

#[test]
fn the_two_fold_tables_are_parallel() {
    assert_eq!(FOLD_FROM.chars().count(), FOLD_TO.chars().count());
    assert!(FOLD_TO.is_ascii(), "every fold target is an ASCII letter");
}

#[test]
fn case_does_not_decide_the_order() {
    assert_eq!(sorted(&["Zebra", "apple"]), ["apple", "Zebra"]);
    assert_eq!(sorted(&["Apple", "apple"]), ["apple", "Apple"]);
}

#[test]
fn a_diacritic_does_not_throw_a_term_to_the_end() {
    assert_eq!(sorted(&["Zyklon", "Zürich"]), ["Zürich", "Zyklon"]);
    assert_eq!(sorted(&["résumé", "resume"]), ["resume", "résumé"]);
}

#[test]
fn a_ligature_files_as_the_letters_it_stands_for() {
    assert_eq!(sorted(&["Ævar", "Adams", "Afton"]), ["Adams", "Ævar", "Afton"]);
    assert_eq!(sorted(&["Straße", "Strasse"]), ["Strasse", "Straße"]);
}

#[test]
fn punctuation_and_spacing_do_not_separate() {
    assert_eq!(
        sorted(&["Keep, the Ruined", "Keeper", "Keepsakes"]),
        ["Keeper", "Keepsakes", "Keep, the Ruined"]
    );
    assert_eq!(sorted(&["New York", "Newark"]), ["Newark", "New York"]);
    assert_eq!(
        sorted(&["cooperate", "co-operate", "cop"]),
        ["co-operate", "cooperate", "cop"]
    );
}

#[test]
fn digits_file_ahead_of_letters() {
    assert_eq!(sorted(&["armour", "3d6", "zephyr"]), ["3d6", "armour", "zephyr"]);
}

#[test]
fn a_declared_leading_article_is_dropped_and_an_undeclared_one_is_not() {
    let english: Vec<String> = ["A", "An", "The"].iter().map(|s| s.to_string()).collect();
    assert_eq!(
        sorted_with(&["The Ruined Keep", "Ravens", "Sorcery"], &english),
        ["Ravens", "The Ruined Keep", "Sorcery"]
    );
    assert_eq!(
        sorted(&["The Ruined Keep", "Ravens", "Sorcery"]),
        ["Ravens", "Sorcery", "The Ruined Keep"]
    );
    assert_eq!(sorted_with(&["Theatre", "Thanes"], &english), ["Thanes", "Theatre"]);
    assert_eq!(sorted_with(&["An Atlas", "Axe"], &english), ["An Atlas", "Axe"]);
}

#[test]
fn a_french_book_states_its_own_articles() {
    let french: Vec<String> = ["Le", "La", "Les", "L'"].iter().map(|s| s.to_string()).collect();
    assert_eq!(
        sorted_with(&["Le Havre", "Gascogne", "Île-de-France"], &french),
        ["Gascogne", "Le Havre", "Île-de-France"]
    );
    assert_eq!(sorted_with(&["L'étoile", "Lyon"], &french), ["L'étoile", "Lyon"]);
}

#[test]
fn an_entry_that_is_only_an_article_files_under_it() {
    let english: Vec<String> = vec!["The".to_string()];
    assert_eq!(sorted_with(&["The", "Thanes"], &english), ["Thanes", "The"]);
}

#[test]
fn sort_as_overrides_the_derivation_entirely() {
    let mut de = IndexMark::new("de Gaulle, Charles");
    de.sort_as = Some("Gaulle, Charles de".into());
    let mut orwell = IndexMark::new("1984");
    orwell.sort_as = Some("Nineteen Eighty-Four".into());
    let mut v = [IndexMark::new("Franks"), de.clone(), IndexMark::new("Norsemen"), orwell.clone()];
    v.sort_by_key(|m| collation_key(m, &[]));
    let terms: Vec<&str> = v.iter().map(|m| m.term.as_str()).collect();
    assert_eq!(terms, ["Franks", "de Gaulle, Charles", "1984", "Norsemen"]);
}

#[test]
fn the_order_is_total_so_collation_is_deterministic() {
    assert_ne!(key("apple"), key("Apple"));
    assert_eq!(sorted(&["Apple", "apple"]), sorted(&["apple", "Apple"]));
}

#[test]
fn a_script_outside_the_fold_table_still_orders_alphabetically() {
    assert_eq!(sorted(&["βῆτα", "άλφα"]), ["άλφα", "βῆτα"]);
    assert_eq!(sorted(&["Волга", "Ангара"]), ["Ангара", "Волга"]);
}

#[test]
fn two_distinct_terms_never_collate_equal() {
    for (a, b) in [("co-operate", "cooperate"), ("resume", "Resume"), ("Straße", "Strasse")] {
        assert_ne!(key(a), key(b));
    }
}
