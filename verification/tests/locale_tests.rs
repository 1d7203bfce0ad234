use translation_table::LocaleCode;

#[test]
fn locale_code_lang() {
    const LOCALE: [&str; 3] = ["en", "es", "fr"];
    for loc in LOCALE.into_iter() {
        let code: LocaleCode = LocaleCode::parse(loc);
        assert_eq!(code.lang, loc.to_string());
        assert_eq!(code.region, "".to_string());
    }
}

#[test]
fn locale_code_lang_region() {
    const LOCALE: [(&str, &str); 3] = [("en", "AU"), ("es", "CL"), ("fr", "CI")];
    for (lang, region) in LOCALE.into_iter() {
        let code: LocaleCode =
            LocaleCode::parse(&format!("{}{}{}", lang, LocaleCode::REGION_DELIMITER, region));
        assert_eq!(code.lang, lang.to_string());
        assert_eq!(code.region, region.to_string());
    }
}

#[test]
fn locale_code_trims_whitespace() {
    let code = LocaleCode::parse("  en - AU\t");
    assert_eq!(code.lang, "en".to_string());
    assert_eq!(code.region, "AU".to_string());
}

#[test]
fn locale_code_canonical_round_trips() {
    let plain = LocaleCode::parse("en");
    assert_eq!(plain.canonical(), "en".to_string());
    let regional = LocaleCode::parse("en-AU");
    assert_eq!(regional.canonical(), "en-AU".to_string());
    let reparsed = LocaleCode::parse(&regional.canonical());
    assert_eq!(reparsed.lang, "en".to_string());
    assert_eq!(reparsed.region, "AU".to_string());
}

#[test]
fn locale_code_equality_ignores_case() {
    let a = LocaleCode::parse("EN-au");
    let b = LocaleCode::parse("en-AU");
    assert!(a == b);
    let c = LocaleCode::parse("en-NZ");
    assert!(a != c);
    let d = LocaleCode::parse("en");
    assert!(a != d);
}
