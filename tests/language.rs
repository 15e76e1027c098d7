use rat_embed_lang::{is_valid_language_code, normalize_language_code};

#[test]
fn test_normalize_language_code() {
    assert_eq!(normalize_language_code("zh"), "zh-CN");
    assert_eq!(normalize_language_code("zh_CN"), "zh-CN");
    assert_eq!(normalize_language_code("zh-cn"), "zh-CN");
    assert_eq!(normalize_language_code("en"), "en-US");
    assert_eq!(normalize_language_code("EN-US"), "en-US");
    assert_eq!(normalize_language_code("invalid"), "en-US");
}

#[test]
fn aliases_of_chinese_agree() {
    let a = normalize_language_code("zh");
    let b = normalize_language_code("zh_CN");
    let c = normalize_language_code("zh-cn");
    assert_eq!(a, "zh-CN");
    assert_eq!(a, b);
    assert_eq!(b, c);
}

#[test]
fn every_known_language_in_three_forms() {
    let cases = [
        ("ja", "ja_jp", "ja-jp", "ja-JP"),
        ("ko", "ko_kr", "ko-kr", "ko-KR"),
        ("fr", "fr_fr", "fr-fr", "fr-FR"),
        ("de", "de_de", "de-de", "de-DE"),
        ("es", "es_es", "es-es", "es-ES"),
        ("it", "it_it", "it-it", "it-IT"),
        ("ru", "ru_ru", "ru-ru", "ru-RU"),
        ("pt", "pt_br", "pt-br", "pt-BR"),
        ("ar", "ar_sa", "ar-sa", "ar-SA"),
        ("hi", "hi_in", "hi-in", "hi-IN"),
        ("th", "th_th", "th-th", "th-TH"),
        ("vi", "vi_vn", "vi-vn", "vi-VN"),
    ];
    for (bare, underscore, hyphen, tag) in cases {
        assert_eq!(normalize_language_code(bare), tag);
        assert_eq!(normalize_language_code(underscore), tag);
        assert_eq!(normalize_language_code(hyphen), tag);
    }
}

#[test]
fn surrounding_white_space_is_trimmed() {
    assert_eq!(normalize_language_code("  Ja-JP \n"), "ja-JP");
    assert_eq!(normalize_language_code("\tko\t"), "ko-KR");
}

#[test]
fn unknown_tag_shape_is_uppercased() {
    assert_eq!(normalize_language_code("zh-tw"), "ZH-TW");
    assert_eq!(normalize_language_code("nl-NL"), "NL-NL");
    assert_eq!(normalize_language_code("pt_pt"), "en-US");
}

#[test]
fn unrecognized_codes_default_to_english() {
    assert_eq!(normalize_language_code(""), "en-US");
    assert_eq!(normalize_language_code("   "), "en-US");
    assert_eq!(normalize_language_code("english"), "en-US");
    assert_eq!(normalize_language_code("zh_tw"), "en-US");
}

#[test]
fn normalizing_twice_changes_nothing() {
    for code in ["zh", " EN ", "ZH_cn", "zh-tw", "xx-yy", "bogus", "", "fr-fr"] {
        let once = normalize_language_code(code);
        assert_eq!(normalize_language_code(&once), once);
    }
}

#[test]
fn validity_follows_the_normalized_shape() {
    assert!(is_valid_language_code("zh"));
    assert!(is_valid_language_code("whatever"));
    assert!(is_valid_language_code("ab-cd"));
}
