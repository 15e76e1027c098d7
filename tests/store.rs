use rat_embed_lang::{
    clear_translations, current_language, get_all_keys, get_supported_languages,
    has_translation, has_translation_for_lang, register_translations, set_language, substitute,
    t, t_with_lang, tf, tf_with_lang, I18n, StrMap,
};

fn texts(pairs: &[(&str, &str)]) -> StrMap<String> {
    let mut m = StrMap::new();
    for (lang, text) in pairs {
        m.insert(lang.to_string(), text.to_string());
    }
    m
}

fn table(entries: Vec<(&str, StrMap<String>)>) -> StrMap<StrMap<String>> {
    let mut m = StrMap::new();
    for (key, value) in entries {
        m.insert(key.to_string(), value);
    }
    m
}

fn sorted(mut v: Vec<String>) -> Vec<String> {
    v.sort();
    v
}

fn hello_store() -> I18n {
    let mut store = I18n::new();
    let batch = table(vec![("hello", texts(&[("zh-CN", "你好"), ("en-US", "Hello")]))]);
    assert!(register_translations(&mut store, batch).is_ok());
    store
}

#[test]
fn new_store_is_english_and_empty() {
    let store = I18n::new();
    assert_eq!(current_language(&store), "en-US");
    assert!(get_all_keys(&store).is_empty());
}

#[test]
fn active_language_then_english_fallback() {
    let mut store = hello_store();
    set_language(&mut store, "zh-CN");
    assert_eq!(current_language(&store), "zh-CN");
    assert_eq!(t(&store, "hello"), "你好");
    set_language(&mut store, "fr-FR");
    assert_eq!(t(&store, "hello"), "Hello");
}

#[test]
fn only_available_language_is_used() {
    let mut store = I18n::new();
    let batch = table(vec![("x", texts(&[("ja-JP", "あ")]))]);
    assert!(register_translations(&mut store, batch).is_ok());
    set_language(&mut store, "ko-KR");
    assert_eq!(t(&store, "x"), "あ");
}

#[test]
fn fallback_without_english_gives_a_stored_text() {
    let mut store = I18n::new();
    let batch = table(vec![("k", texts(&[("ja-JP", "一"), ("ko-KR", "이")]))]);
    assert!(register_translations(&mut store, batch).is_ok());
    set_language(&mut store, "de-DE");
    let r = t(&store, "k");
    assert!(r == "一" || r == "이");
}

#[test]
fn unknown_key_is_bracketed() {
    let store = hello_store();
    assert_eq!(t(&store, "nonexistent"), "[nonexistent]");
    assert_eq!(t(&store, ""), "[]");
}

#[test]
fn key_without_texts_is_bracketed() {
    let mut store = I18n::new();
    let batch = table(vec![("empty", StrMap::new())]);
    assert!(register_translations(&mut store, batch).is_ok());
    assert!(has_translation(&store, "empty"));
    assert_eq!(t(&store, "empty"), "[empty]");
}

#[test]
fn exact_language_lookup_has_no_fallback() {
    let store = hello_store();
    assert_eq!(t_with_lang(&store, "hello", "zh-CN"), "你好");
    assert_eq!(t_with_lang(&store, "hello", "en-US"), "Hello");
    assert_eq!(t_with_lang(&store, "hello", "fr-FR"), "[hello]");
    assert_eq!(t_with_lang(&store, "bye", "en-US"), "[bye]");
}

#[test]
fn existence_checks() {
    let store = hello_store();
    assert!(has_translation(&store, "hello"));
    assert!(!has_translation(&store, "bye"));
    assert!(has_translation_for_lang(&store, "hello", "zh-CN"));
    assert!(!has_translation_for_lang(&store, "hello", "ja-JP"));
    assert!(!has_translation_for_lang(&store, "bye", "en-US"));
}

#[test]
fn keys_and_languages_are_listed() {
    let mut store = hello_store();
    let batch = table(vec![("bye", texts(&[("en-US", "Bye")]))]);
    assert!(register_translations(&mut store, batch).is_ok());
    assert_eq!(sorted(get_all_keys(&store)), vec!["bye".to_string(), "hello".to_string()]);
    assert_eq!(
        sorted(get_supported_languages(&store, "hello")),
        vec!["en-US".to_string(), "zh-CN".to_string()]
    );
    assert!(get_supported_languages(&store, "missing").is_empty());
}

#[test]
fn duplicate_keys_are_rejected_whole() {
    let mut store = hello_store();
    let batch = table(vec![
        ("world", texts(&[("en-US", "World")])),
        ("hello", texts(&[("en-US", "Hi")])),
    ]);
    let err = match register_translations(&mut store, batch) {
        Ok(()) => panic!("a duplicate key was accepted"),
        Err(e) => e,
    };
    assert_eq!(err.keys, vec!["hello".to_string()]);
    assert!(!has_translation(&store, "world"));
    assert_eq!(t(&store, "hello"), "Hello");
    assert_eq!(
        err.message("en-US"),
        "Duplicate translation keys: hello. Please check or call clear_translations() to clear existing data."
    );
    assert_eq!(
        err.message("zh-CN"),
        "翻译key重复: hello. 请检查或先调用clear_translations()清理现有翻译数据。"
    );
}

#[test]
fn duplicate_message_joins_every_key() {
    let mut store = I18n::new();
    let first = table(vec![("a", texts(&[("en-US", "A")])), ("b", texts(&[("en-US", "B")]))]);
    assert!(register_translations(&mut store, first).is_ok());
    let second = table(vec![("a", texts(&[("en-US", "A2")])), ("b", texts(&[("en-US", "B2")]))]);
    let err = register_translations(&mut store, second).err().unwrap();
    let mut keys = err.keys.clone();
    keys.sort();
    assert_eq!(keys, vec!["a".to_string(), "b".to_string()]);
    let msg = err.message("fr-FR");
    assert!(msg == format!("Duplicate translation keys: {}, {}. Please check or call clear_translations() to clear existing data.", err.keys[0], err.keys[1]));
}

#[test]
fn clear_then_register_again() {
    let mut store = hello_store();
    set_language(&mut store, "zh-CN");
    clear_translations(&mut store);
    assert!(get_all_keys(&store).is_empty());
    assert_eq!(current_language(&store), "zh-CN");
    let batch = table(vec![("hello", texts(&[("zh-CN", "您好")]))]);
    assert!(register_translations(&mut store, batch).is_ok());
    assert_eq!(t(&store, "hello"), "您好");
}

#[test]
fn disjoint_batches_keep_every_key() {
    let mut store = I18n::new();
    for i in 0..10 {
        let key = format!("key{}", i);
        let batch = table(vec![(key.as_str(), texts(&[("en-US", "v")]))]);
        assert!(register_translations(&mut store, batch).is_ok());
    }
    let keys = sorted(get_all_keys(&store));
    let mut expected: Vec<String> = (0..10).map(|i| format!("key{}", i)).collect();
    expected.sort();
    assert_eq!(keys, expected);
}

fn welcome_store() -> I18n {
    let mut store = I18n::new();
    let batch = table(vec![
        ("welcome", texts(&[("zh-CN", "欢迎，{name}！"), ("en-US", "Welcome, {name}!")])),
        ("login", texts(&[("en-US", "{username} logged in at {time}")])),
    ]);
    assert!(register_translations(&mut store, batch).is_ok());
    store
}

#[test]
fn placeholders_are_filled() {
    let mut store = welcome_store();
    assert_eq!(tf(&store, "welcome", &[("name", "Alice")]), "Welcome, Alice!");
    assert_eq!(tf(&store, "welcome", &[("nonexistent", "value")]), "Welcome, {name}!");
    assert_eq!(tf(&store, "welcome", &[]), "Welcome, {name}!");
    assert_eq!(
        tf(&store, "login", &[("username", "John"), ("time", "14:30")]),
        "John logged in at 14:30"
    );
    set_language(&mut store, "zh-CN");
    assert_eq!(tf(&store, "welcome", &[("name", "张三")]), "欢迎，张三！");
    assert_eq!(tf(&store, "missing", &[("name", "x")]), "[missing]");
}

#[test]
fn placeholders_with_a_given_language() {
    let mut store = welcome_store();
    set_language(&mut store, "zh-CN");
    assert_eq!(tf_with_lang(&store, "welcome", "en-US", &[("name", "Alice")]), "Welcome, Alice!");
    assert_eq!(tf_with_lang(&store, "welcome", "ja-JP", &[("name", "Alice")]), "[welcome]");
}

#[test]
fn substitution_is_pairwise_and_literal() {
    assert_eq!(substitute("{a}{a}-{b}", &[("a", "1"), ("b", "2")]), "11-2");
    assert_eq!(substitute("{a}", &[("a", "{b}"), ("b", "x")]), "x");
    assert_eq!(substitute("{b}", &[("a", "x"), ("b", "{a}")]), "{a}");
    assert_eq!(substitute("{{a}}", &[("a", "z")]), "{z}");
    assert_eq!(substitute("", &[("a", "z")]), "");
}
