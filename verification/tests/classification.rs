use manifest_producer::dwarf_analysis::{
    classify, increment_language_count, language_tag, tally_languages, LanguageCount,
    LanguageCounts, DW_LANG_C99, DW_LANG_RUST,
};
use manifest_producer::error::Error;

#[test]
fn increment_counts_in_first_seen_order() {
    let mut counts = LanguageCounts::new();
    increment_language_count(&mut counts, 0x0c);
    increment_language_count(&mut counts, 0x1c);
    increment_language_count(&mut counts, 0x0c);
    assert_eq!(counts.len(), 2);
    assert_eq!(counts.entry(0), LanguageCount { code: 0x0c, count: 2 });
    assert_eq!(counts.entry(1), LanguageCount { code: 0x1c, count: 1 });
}

#[test]
fn tally_matches_repeated_increment() {
    let counts = tally_languages(&vec![4, 4, 0x1c, 4, 0x1c]);
    assert_eq!(counts.len(), 2);
    assert_eq!(counts.entry(0), LanguageCount { code: 4, count: 3 });
    assert_eq!(counts.entry(1), LanguageCount { code: 0x1c, count: 2 });
    assert_eq!(counts.position(0x1c), Some(1));
    assert_eq!(counts.position(7), None);
}

#[test]
fn c99_is_discarded_when_rust_is_present() {
    let mut codes = vec![DW_LANG_C99; 5];
    codes.extend(vec![DW_LANG_RUST; 5]);
    assert_eq!(tally_languages(&codes).dominant_language(), Some(DW_LANG_RUST));
    assert_eq!(classify(&codes), Ok("DW_LANG_Rust".to_string()));
}

#[test]
fn c99_is_discarded_even_when_it_leads() {
    let mut codes = vec![DW_LANG_C99; 9];
    codes.push(DW_LANG_RUST);
    assert_eq!(classify(&codes), Ok("DW_LANG_Rust".to_string()));
}

#[test]
fn c99_wins_without_rust() {
    let codes = vec![DW_LANG_C99, 0x04, DW_LANG_C99];
    assert_eq!(classify(&codes), Ok("DW_LANG_C99".to_string()));
}

#[test]
fn tie_goes_to_the_language_seen_first() {
    // C++ (4) and C11 (0x1d), two sightings each
    assert_eq!(classify(&vec![0x1d, 4, 4, 0x1d]), Ok("DW_LANG_C11".to_string()));
    assert_eq!(classify(&vec![4, 0x1d, 0x1d, 4]), Ok("DW_LANG_C_plus_plus".to_string()));
}

#[test]
fn majority_wins() {
    assert_eq!(classify(&vec![4, 0x1d, 0x1d]), Ok("DW_LANG_C11".to_string()));
}

#[test]
fn no_language_attribute_is_an_error() {
    assert_eq!(classify(&Vec::new()), Err(Error::LangNotFound));
    assert_eq!(LanguageCounts::new().dominant_language(), None);
}

#[test]
fn unknown_language_code_is_an_error() {
    assert_eq!(classify(&vec![0x7777]), Err(Error::LangNotFound));
}

#[test]
fn language_tag_strips_the_prefix() {
    assert_eq!(language_tag("DW_LANG_Rust"), Ok("Rust".to_string()));
    assert_eq!(language_tag("DW_LANG_C99"), Ok("C99".to_string()));
    assert_eq!(language_tag("DW_LANG_"), Ok(String::new()));
}

#[test]
fn language_tag_rejects_other_text() {
    assert_eq!(language_tag(""), Err(Error::LangNotFound));
    assert_eq!(language_tag("Rust"), Err(Error::LangNotFound));
    assert_eq!(language_tag("Unknown DwLang: 30583"), Err(Error::LangNotFound));
}

#[test]
fn error_messages_are_distinct() {
    let all = [
        Error::Load,
        Error::DebugInfo,
        Error::LangNotFound,
        Error::FuncListEmpty,
        Error::Region,
    ];
    for (i, a) in all.iter().enumerate() {
        assert!(!a.message().is_empty());
        for b in all.iter().skip(i + 1) {
            assert_ne!(a.message(), b.message());
        }
    }
    assert_eq!(Error::DebugInfo.message(), "the binary is stripped of debug information");
}
