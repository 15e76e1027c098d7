//! An embeddable translation-string store: register texts per message key and
//! language, pick an active language, and look texts up with a fixed fallback
//! order and `{name}` placeholder substitution.

pub mod text;
pub mod str_map;
pub mod language;
pub mod i18n;

pub use language::{normalize_language_code, is_valid_language_code};
pub use str_map::StrMap;
pub use text::substitute;
pub use i18n::{
    I18n, DuplicateKeys, set_language, current_language, register_translations,
    clear_translations, t, t_with_lang, has_translation, has_translation_for_lang,
    get_all_keys, get_supported_languages, tf, tf_with_lang,
};
