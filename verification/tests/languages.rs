//! Language codes.
use libpgs::lang::normalize_language;

#[test]
fn test_iso639_2t_to_1() {
    assert_eq!(normalize_language("eng"), "en");
    assert_eq!(normalize_language("fra"), "fr");
    assert_eq!(normalize_language("zho"), "zh");
    assert_eq!(normalize_language("spa"), "es");
    assert_eq!(normalize_language("jpn"), "ja");
    assert_eq!(normalize_language("kor"), "ko");
    assert_eq!(normalize_language("rus"), "ru");
}

#[test]
fn test_iso639_2b_to_1() {
    // Bibliographic codes that differ from terminology
    assert_eq!(normalize_language("chi"), "zh");
    assert_eq!(normalize_language("fre"), "fr");
    assert_eq!(normalize_language("ger"), "de");
    assert_eq!(normalize_language("dut"), "nl");
    assert_eq!(normalize_language("rum"), "ro");
    assert_eq!(normalize_language("cze"), "cs");
    assert_eq!(normalize_language("gre"), "el");
    assert_eq!(normalize_language("ice"), "is");
    assert_eq!(normalize_language("mac"), "mk");
    assert_eq!(normalize_language("per"), "fa");
    assert_eq!(normalize_language("slo"), "sk");
    assert_eq!(normalize_language("tib"), "bo");
    assert_eq!(normalize_language("wel"), "cy");
    assert_eq!(normalize_language("baq"), "eu");
    assert_eq!(normalize_language("arm"), "hy");
    assert_eq!(normalize_language("bur"), "my");
    assert_eq!(normalize_language("geo"), "ka");
    assert_eq!(normalize_language("mao"), "mi");
    assert_eq!(normalize_language("may"), "ms");
    assert_eq!(normalize_language("alb"), "sq");
}

#[test]
fn test_two_letter_passthrough() {
    assert_eq!(normalize_language("en"), "en");
    assert_eq!(normalize_language("zh"), "zh");
    assert_eq!(normalize_language("fr"), "fr");
}

#[test]
fn test_bcp47_with_subtags() {
    assert_eq!(normalize_language("zh-Hans"), "zh-Hans");
    assert_eq!(normalize_language("zh-Hant"), "zh-Hant");
    assert_eq!(normalize_language("pt-BR"), "pt-BR");
    assert_eq!(normalize_language("zho-Hans"), "zh-Hans");
}

#[test]
fn test_unknown_passthrough() {
    // Unknown 3-letter codes without a 2-letter equivalent pass through
    assert_eq!(normalize_language("qaa"), "qaa");
    assert_eq!(normalize_language("mis"), "mis");
}

#[test]
fn test_case_normalization() {
    assert_eq!(normalize_language("ENG"), "en");
    assert_eq!(normalize_language("Fre"), "fr");
    assert_eq!(normalize_language("ZHO"), "zh");
}
