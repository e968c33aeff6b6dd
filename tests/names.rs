use fund_index::name::clean_scheme_name;
use fund_index::text::canonicalize;

#[test]
fn canonicalize_folds_case_and_punctuation() {
    assert_eq!(canonicalize("HDFC Equity Growth Fund"), "hdfc equity growth fund");
    assert_eq!(canonicalize("  HDFC   Equity-Growth (G)  "), "hdfc equitygrowth g");
    assert_eq!(canonicalize("A\tB\nC"), "a b c");
    assert_eq!(canonicalize(""), "");
    assert_eq!(canonicalize("!!!"), "");
}

#[test]
fn canonicalize_is_a_projection() {
    for s in [
        "HDFC Equity Growth Fund",
        "  Axis  Bluechip -- Reg (G) ",
        "İstanbul ΣΑΣ Fund",
        "ÀÉÎ Ωmega 2024",
        "",
        "\u{a0}spaced\u{2003}out\u{a0}",
    ] {
        let once = canonicalize(s);
        assert_eq!(canonicalize(&once), once);
    }
}

#[test]
fn clean_name_drops_regular_growth_boilerplate() {
    assert_eq!(clean_scheme_name("ABC Fund - Reg - Growth".to_string()), "ABC Fund");
    assert_eq!(clean_scheme_name("XYZ Fund-Reg".to_string()), "XYZ Fund");
}

#[test]
fn clean_name_is_stable_on_its_output() {
    for s in [
        "ABC Fund - Reg - Growth",
        "XYZ Fund-Reg",
        "**Axis Bluechip Fund - Regular**",
        "  Mirae   Asset  Large Cap - Reg - Gth ",
        "Kotak Flexicap-Reg-Growth",
    ] {
        let once = clean_scheme_name(s.to_string());
        assert_eq!(clean_scheme_name(once.clone()), once);
    }
}

#[test]
fn clean_name_trims_edges_and_collapses_spaces() {
    assert_eq!(clean_scheme_name("  --Axis   Bluechip Fund--  ".to_string()), "Axis Bluechip Fund");
    assert_eq!(clean_scheme_name("Mirae Asset Large Cap - Reg - Gth".to_string()), "Mirae Asset Large Cap");
    assert_eq!(clean_scheme_name("Kotak Flexicap Fund Regular".to_string()), "Kotak Flexicap Fund");
    assert_eq!(clean_scheme_name("é!".to_string()), "é");
    assert_eq!(clean_scheme_name("".to_string()), "");
}

#[test]
fn clean_name_strips_stacked_noise_until_none_is_left() {
    for (raw, clean) in [
        ("ABC Growth Growth", "ABC"),
        ("Fund Growth Growth", "Fund"),
        ("ABC Fund - Regular - Growth", "ABC Fund"),
        ("GrowthGrowth", ""),
    ] {
        let once = clean_scheme_name(raw.to_string());
        assert_eq!(once, clean);
        assert_eq!(clean_scheme_name(once.clone()), once);
    }
}

#[test]
fn lowercase_mappings_are_their_own_lowercase() {
    for c in (0u32..=0x10FFFF).filter_map(char::from_u32) {
        for d in c.to_lowercase() {
            assert!(d.to_lowercase().eq(std::iter::once(d)), "{:?} -> {:?}", c, d);
        }
    }
}

#[test]
fn no_alphanumeric_char_is_whitespace() {
    for c in (0u32..=0x10FFFF).filter_map(char::from_u32) {
        assert!(!(c.is_alphanumeric() && c.is_whitespace()), "{:?}", c);
    }
}

#[test]
fn ascii_char_classes() {
    for c in (0u8..128).map(char::from) {
        assert_eq!(c.is_alphanumeric(), c.is_ascii_alphanumeric());
        assert_eq!(c.is_whitespace(), c == ' ' || ('\t'..='\r').contains(&c));
        let expected = if c.is_ascii_uppercase() { char::from(c as u8 + 32) } else { c };
        assert!(c.to_lowercase().eq(std::iter::once(expected)));
    }
}
