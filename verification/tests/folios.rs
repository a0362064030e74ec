use quill::numbering::{coalesce_folios, NumberFormat};
use quill::numbering::NumberFormat::{Decimal, LowerRoman};
use quill::pages::{is_recto, BreakKind};

#[test]
fn a_break_kind_accepts_pages_by_parity() {
    assert!(BreakKind::Page.accepts(0, true) && BreakKind::Page.accepts(1, true));
    assert!(BreakKind::Recto.accepts(0, true), "page 0 is a recto");
    assert!(!BreakKind::Recto.accepts(1, true));
    assert!(BreakKind::Recto.accepts(2, true));
    assert!(!BreakKind::Verso.accepts(0, true));
    assert!(BreakKind::Verso.accepts(1, true));
    for page in 0..6 {
        assert_eq!(BreakKind::Recto.accepts(page, true), is_recto(page, true));
        assert_eq!(BreakKind::Verso.accepts(page, true), !is_recto(page, true));
    }
    for page in 0..6 {
        assert!(BreakKind::Recto.accepts(page, false));
        assert!(BreakKind::Verso.accepts(page, false));
    }
}

#[test]
fn page_ranges_coalesce_into_runs() {
    let d = |n: u32| (Decimal, n);
    assert_eq!(coalesce_folios(&[]), "");
    assert_eq!(coalesce_folios(&[d(42)]), "42");
    assert_eq!(coalesce_folios(&[d(42), d(43)]), "42\u{2013}43");
    assert_eq!(coalesce_folios(&[d(42), d(43), d(44), d(45), d(47)]), "42\u{2013}45, 47");
    assert_eq!(coalesce_folios(&[d(1), d(3), d(5)]), "1, 3, 5");
}

#[test]
fn a_range_never_spans_a_folio_format_change() {
    assert_eq!(
        coalesce_folios(&[(LowerRoman, 7), (LowerRoman, 8), (Decimal, 1), (Decimal, 2)]),
        "vii\u{2013}viii, 1\u{2013}2"
    );
    assert_eq!(coalesce_folios(&[(LowerRoman, 4), (Decimal, 5)]), "iv, 5");
}

#[test]
fn a_restart_breaks_a_range_between_consecutive_pages() {
    assert_eq!(
        coalesce_folios(&[(Decimal, 8), (Decimal, 9), (Decimal, 1), (Decimal, 2)]),
        "8\u{2013}9, 1\u{2013}2"
    );
}

#[test]
fn the_subset_alphabet_covers_everything_the_formatter_can_produce() {
    for format in [
        NumberFormat::Decimal,
        NumberFormat::LowerAlpha,
        NumberFormat::UpperAlpha,
        NumberFormat::LowerRoman,
        NumberFormat::UpperRoman,
    ] {
        let alphabet = format.alphabet();
        for n in (0..5000).chain([9999, 100_000, u32::MAX]) {
            for ch in format.format(n).chars() {
                assert!(
                    alphabet.contains(&ch),
                    "{format:?} writes {n} as {:?}, and {ch:?} is not in its alphabet",
                    format.format(n)
                );
            }
        }
    }
    assert!(NumberFormat::LowerRoman.alphabet().is_superset(&"ivxlcdm".chars().collect()));
    assert!(NumberFormat::UpperRoman.alphabet().is_superset(&"IVXLCDM".chars().collect()));
    assert!(NumberFormat::LowerAlpha.alphabet().is_superset(&('a'..='z').collect()));
    assert_eq!(
        NumberFormat::Decimal.alphabet(),
        ('0'..='9').collect(),
        "decimal is the ten digits and nothing else"
    );
}
