//! The translation store: texts per message key and language, the active
//! language, lookup with fallback, and placeholder substitution.

use vstd::prelude::*;
use crate::language::default_tag;
use crate::str_map::StrMap;
use crate::text::{bracket, bracketed, chars_of, substitute, substituted};

verus! {

/// The texts of one key, by language.
pub open spec fn texts_of(m: StrMap<String>) -> Map<Seq<char>, Seq<char>> {
    m@.map_values(|s: String| s@)
}

/// A translation table as nested maps: key, then language, to text.
pub open spec fn table_of(m: StrMap<StrMap<String>>) -> Map<Seq<char>, Map<Seq<char>, Seq<char>>> {
    table_of_map(m@)
}

/// Is `r` what looking up `key` in `table` with active language `lang` may
/// give? The text for `lang`; else the text for `en-US`; else the text of some
/// language of the key; else, for an unknown key or one without texts, `[key]`.
pub open spec fn lookup_result(
    table: Map<Seq<char>, Map<Seq<char>, Seq<char>>>,
    lang: Seq<char>,
    key: Seq<char>,
    r: Seq<char>,
) -> bool {
    if !table.contains_key(key) {
        r == bracketed(key)
    } else if table[key].contains_key(lang) {
        r == table[key][lang]
    } else if table[key].contains_key(default_tag()) {
        r == table[key][default_tag()]
    } else if table[key] == Map::<Seq<char>, Seq<char>>::empty() {
        r == bracketed(key)
    } else {
        exists|l: Seq<char>| table[key].contains_key(l) && r == table[key][l]
    }
}

/// The text of `key` in `lang` exactly, or `[key]` where there is none.
pub open spec fn exact_lookup(
    table: Map<Seq<char>, Map<Seq<char>, Seq<char>>>,
    key: Seq<char>,
    lang: Seq<char>,
) -> Seq<char> {
    if table.contains_key(key) && table[key].contains_key(lang) {
        table[key][lang]
    } else {
        bracketed(key)
    }
}

/// The view of a list of strings as character sequences.
pub open spec fn views(v: Seq<String>) -> Seq<Seq<char>> {
    v.map_values(|s: String| s@)
}

/// The nested view of a table's contents.
pub open spec fn table_of_map(m: Map<Seq<char>, StrMap<String>>) -> Map<Seq<char>, Map<Seq<char>, Seq<char>>> {
    m.map_values(|texts: StrMap<String>| texts_of(texts))
}

/// `v` lists the members of `keys`, each once.
pub open spec fn lists_exactly(v: Seq<Seq<char>>, keys: Set<Seq<char>>) -> bool {
    &&& forall|i: int| 0 <= i < v.len() ==> #[trigger] keys.contains(v[i])
    &&& forall|k: Seq<char>| #[trigger] keys.contains(k) ==> exists|i: int| 0 <= i < v.len() && v[i] == k
    &&& forall|i: int, j: int| 0 <= i < j < v.len() ==> v[i] != v[j]
}

/// A translation store: a table from message key to texts by language, and
/// the active language.
pub struct I18n {
    translations: StrMap<StrMap<String>>,
    language: String,
}

impl I18n {
    /// The registered texts: key, then language, to text.
    pub closed spec fn table(&self) -> Map<Seq<char>, Map<Seq<char>, Seq<char>>> {
        table_of(self.translations)
    }

    /// The active language.
    pub closed spec fn language(&self) -> Seq<char> {
        self.language@
    }

    /// An empty store whose active language is `en-US`.
    pub fn new() -> (r: Self)
        ensures
            r.table() == Map::<Seq<char>, Map<Seq<char>, Seq<char>>>::empty(),
            r.language() == default_tag(),
    {
        let r = I18n { translations: StrMap::new(), language: String::from_str("en-US") };
        proof {
            reveal_strlit("en-US");
            assert(r.table() =~= Map::<Seq<char>, Map<Seq<char>, Seq<char>>>::empty());
        }
        r
    }
}

/// Registering failed: these keys already had texts.
pub struct DuplicateKeys {
    pub keys: Vec<String>,
}

/// The keys written one after another, separated by `, `.
pub open spec fn joined(keys: Seq<Seq<char>>) -> Seq<char>
    decreases keys.len(),
{
    if keys.len() == 0 {
        Seq::empty()
    } else if keys.len() == 1 {
        keys[0]
    } else {
        joined(keys.drop_last()) + ", "@ + keys.last()
    }
}

/// Is `lang` a Chinese tag, one that begins with `zh`?
pub open spec fn is_chinese(lang: Seq<char>) -> bool {
    lang.len() >= 2 && lang[0] == 'z' && lang[1] == 'h'
}

/// The message for duplicate `keys`, in Chinese for a Chinese `lang` and in
/// English otherwise.
pub open spec fn duplicate_message(keys: Seq<Seq<char>>, lang: Seq<char>) -> Seq<char> {
    if is_chinese(lang) {
        "翻译key重复: "@ + joined(keys) + ". 请检查或先调用clear_translations()清理现有翻译数据。"@
    } else {
        "Duplicate translation keys: "@ + joined(keys)
            + ". Please check or call clear_translations() to clear existing data."@
    }
}

impl DuplicateKeys {
    /// Says which keys were already registered and how to proceed, in the
    /// language `lang`.
    pub fn message(&self, lang: &str) -> (r: String)
        ensures
            r@ == duplicate_message(views(self.keys@), lang@),
    {
        let lc = chars_of(lang);
        let chinese = lc.len() >= 2 && lc[0] == 'z' && lc[1] == 'h';
        let mut r = if chinese {
            String::from_str("翻译key重复: ")
        } else {
            String::from_str("Duplicate translation keys: ")
        };
        let ghost start = r@;
        let mut i: usize = 0;
        while i < self.keys.len()
            invariant
                i <= self.keys@.len(),
                r@ == start + joined(views(self.keys@).subrange(0, i as int)),
            decreases self.keys@.len() - i,
        {
            let ghost before = r@;
            if i > 0 {
                r.append(", ");
            }
            r.append(self.keys[i].as_str());
            proof {
                let v = views(self.keys@);
                assert(v.subrange(0, i + 1).drop_last() =~= v.subrange(0, i as int));
                assert(v.subrange(0, i + 1).last() == self.keys@[i as int]@);
                if i == 0 {
                    assert(joined(v.subrange(0, 0)) =~= Seq::<char>::empty());
                    assert(r@ =~= start + joined(v.subrange(0, 1)));
                } else {
                    assert(r@ =~= start + joined(v.subrange(0, i + 1)));
                }
            }
            i = i + 1;
        }
        assert(views(self.keys@).subrange(0, self.keys@.len() as int) =~= views(self.keys@));
        if chinese {
            r.append(". 请检查或先调用clear_translations()清理现有翻译数据。");
        } else {
            r.append(". Please check or call clear_translations() to clear existing data.");
        }
        r
    }
}

/// Makes `lang` the active language. No check is made on it.
pub fn set_language(i18n: &mut I18n, lang: &str)
    ensures
        final(i18n).language() == lang@,
        final(i18n).table() == old(i18n).table(),
{
    i18n.language = String::from_str(lang);
}

/// The active language.
pub fn current_language(i18n: &I18n) -> (r: String)
    ensures
        r@ == i18n.language(),
{
    i18n.language.clone()
}

/// Viewing a table's texts as nested maps keeps its keys.
proof fn lemma_table_dom(m: Map<Seq<char>, StrMap<String>>)
    ensures
        table_of_map(m).dom() == m.dom(),
{
    assert(table_of_map(m).dom() =~= m.dom());
}

/// The keys of `batch` that `existing` already holds, each once.
fn keys_in_both(existing: &StrMap<StrMap<String>>, batch: &StrMap<StrMap<String>>) -> (r: Vec<String>)
    ensures
        lists_exactly(views(r@), existing@.dom().intersect(batch@.dom())),
{
    let new_keys = batch.keys();
    let ghost old_dom = existing@.dom();
    let mut duplicates: Vec<String> = Vec::new();
    let mut i: usize = 0;
    while i < new_keys.len()
        invariant
            i <= new_keys@.len(),
            old_dom == existing@.dom(),
            forall|a: int, b: int| 0 <= a < b < new_keys@.len() ==> new_keys@[a]@ != new_keys@[b]@,
            forall|j: int| 0 <= j < duplicates@.len() ==> #[trigger] old_dom.contains(duplicates@[j]@),
            forall|j: int| 0 <= j < duplicates@.len()
                ==> exists|m: int| 0 <= m < i && new_keys@[m]@ == #[trigger] duplicates@[j]@,
            forall|m: int| 0 <= m < i && #[trigger] old_dom.contains(new_keys@[m]@)
                ==> exists|j: int| 0 <= j < duplicates@.len() && duplicates@[j]@ == new_keys@[m]@,
            forall|a: int, b: int| 0 <= a < b < duplicates@.len() ==> duplicates@[a]@ != duplicates@[b]@,
        decreases new_keys@.len() - i,
    {
        let ghost before = duplicates@;
        if existing.contains_key(new_keys[i].as_str()) {
            duplicates.push(new_keys[i].clone());
            proof {
                assert forall|a: int| 0 <= a < before.len() implies before[a]@ != new_keys@[i as int]@ by {
                    let m = choose|m: int| 0 <= m < i && new_keys@[m]@ == before[a]@;
                }
                assert(duplicates@[before.len() as int]@ == new_keys@[i as int]@);
            }
        }
        proof {
            assert forall|j: int| 0 <= j < duplicates@.len()
                implies exists|m: int| 0 <= m < i + 1 && new_keys@[m]@ == #[trigger] duplicates@[j]@ by {
                if j < before.len() {
                    assert(duplicates@[j] == before[j]);
                    let m = choose|m: int| 0 <= m < i && new_keys@[m]@ == before[j]@;
                } else {
                    assert(new_keys@[i as int]@ == duplicates@[j]@);
                }
            }
            assert forall|m: int| 0 <= m < i + 1 && #[trigger] old_dom.contains(new_keys@[m]@)
                implies exists|j: int| 0 <= j < duplicates@.len() && duplicates@[j]@ == new_keys@[m]@ by {
                if m < i {
                    let j = choose|j: int| 0 <= j < before.len() && before[j]@ == new_keys@[m]@;
                    assert(duplicates@[j] == before[j]);
                } else {
                    assert(duplicates@[before.len() as int]@ == new_keys@[m]@);
                }
            }
        }
        i = i + 1;
    }
    proof {
        let both = old_dom.intersect(batch@.dom());
        let v = views(duplicates@);
        assert forall|j: int| 0 <= j < v.len() implies #[trigger] both.contains(v[j]) by {
            let m = choose|m: int| 0 <= m < new_keys@.len() && new_keys@[m]@ == duplicates@[j]@;
        }
        assert forall|k: Seq<char>| #[trigger] both.contains(k)
            implies exists|j: int| 0 <= j < v.len() && v[j] == k by {
            let m = choose|m: int| 0 <= m < new_keys@.len() && new_keys@[m]@ == k;
            let j = choose|j: int| 0 <= j < duplicates@.len() && duplicates@[j]@ == k;
            assert(v[j] == k);
        }
        assert forall|a: int, b: int| 0 <= a < b < v.len() implies v[a] != v[b] by {
            assert(v[a] == duplicates@[a]@ && v[b] == duplicates@[b]@);
        }
    }
    duplicates
}

/// Adds a batch of keys with their texts. Where any key of the batch already
/// has texts, nothing is added and the error lists every such key.
pub fn register_translations(i18n: &mut I18n, translations: StrMap<StrMap<String>>) -> (r: Result<(), DuplicateKeys>)
    ensures
        final(i18n).language() == old(i18n).language(),
        r.is_ok() <==> old(i18n).table().dom().disjoint(table_of(translations).dom()),
        r.is_ok() ==> final(i18n).table() == old(i18n).table().union_prefer_right(table_of(translations)),
        r matches Err(e) ==> {
            &&& final(i18n).table() == old(i18n).table()
            &&& lists_exactly(views(e.keys@), old(i18n).table().dom().intersect(table_of(translations).dom()))
        },
{
    proof {
        lemma_table_dom(i18n.translations@);
        lemma_table_dom(translations@);
    }
    let duplicates = keys_in_both(&i18n.translations, &translations);
    let ghost incoming = table_of(translations);
    let ghost both = i18n.translations@.dom().intersect(translations@.dom());
    if duplicates.len() > 0 {
        proof {
            let k = duplicates@[0]@;
            assert(views(duplicates@)[0] == k);
            assert(both.contains(k));
        }
        Err(DuplicateKeys { keys: duplicates })
    } else {
        let ghost prev = i18n.translations@;
        proof {
            assert forall|k: Seq<char>| prev.dom().contains(k) implies !#[trigger] incoming.dom().contains(k) by {
                if incoming.dom().contains(k) {
                    assert(both.contains(k));
                }
            }
        }
        i18n.translations.extend(translations);
        proof {
            assert(table_of(i18n.translations) =~= table_of_map(prev).union_prefer_right(incoming));
        }
        Ok(())
    }
}

/// Removes every key and its texts; the active language stays.
pub fn clear_translations(i18n: &mut I18n)
    ensures
        final(i18n).table() == Map::<Seq<char>, Map<Seq<char>, Seq<char>>>::empty(),
        final(i18n).language() == old(i18n).language(),
{
    i18n.translations.clear();
    assert(i18n.table() =~= Map::<Seq<char>, Map<Seq<char>, Seq<char>>>::empty());
}

/// The text of `key` in the active language, falling back to `en-US`, then
/// to any language the key has, then to `[key]`.
pub fn t(i18n: &I18n, key: &str) -> (r: String)
    ensures
        lookup_result(i18n.table(), i18n.language(), key@, r@),
        i18n.table().contains_key(key@) && i18n.table()[key@].contains_key(i18n.language())
            ==> r@ == i18n.table()[key@][i18n.language()],
        i18n.table().contains_key(key@) && !i18n.table()[key@].contains_key(i18n.language())
            && i18n.table()[key@].contains_key(default_tag())
            ==> r@ == i18n.table()[key@][default_tag()],
        i18n.table().contains_key(key@) && i18n.table()[key@] != Map::<Seq<char>, Seq<char>>::empty()
            ==> exists|l: Seq<char>| i18n.table()[key@].contains_key(l) && r@ == i18n.table()[key@][l],
        !i18n.table().contains_key(key@) ==> r@ == bracketed(key@),
{
    match i18n.translations.get(key) {
        Some(texts) => {
            let ghost texts_view = i18n.table()[key@];
            assert(texts_view == texts_of(*texts));
            match texts.get(i18n.language.as_str()) {
                Some(text) => {
                    assert(texts_view.contains_key(i18n.language@) && texts_view[i18n.language@] == text@);
                    return text.clone();
                },
                None => {},
            }
            let english = "en-US";
            proof {
                reveal_strlit("en-US");
                assert(english@ =~= default_tag());
            }
            match texts.get(english) {
                Some(text) => {
                    assert(texts_view.contains_key(english@) && texts_view[english@] == text@);
                    return text.clone();
                },
                None => {},
            }
            match texts.first_value() {
                Some(text) => {
                    proof {
                        let l = choose|l: Seq<char>| texts@.contains_key(l) && texts@[l] == *text;
                        assert(texts_view.contains_key(l) && texts_view[l] == text@);
                    }
                    text.clone()
                },
                None => {
                    assert(texts_of(*texts) =~= Map::<Seq<char>, Seq<char>>::empty());
                    bracket(key)
                },
            }
        },
        None => bracket(key),
    }
}

/// The text of `key` in `lang`, with no fallback: `[key]` where there is none.
pub fn t_with_lang(i18n: &I18n, key: &str, lang: &str) -> (r: String)
    ensures
        r@ == exact_lookup(i18n.table(), key@, lang@),
{
    match i18n.translations.get(key) {
        Some(texts) => match texts.get(lang) {
            Some(text) => text.clone(),
            None => bracket(key),
        },
        None => bracket(key),
    }
}

/// Does `key` have texts registered?
pub fn has_translation(i18n: &I18n, key: &str) -> (r: bool)
    ensures
        r == i18n.table().contains_key(key@),
{
    i18n.translations.contains_key(key)
}

/// Does `key` have a text in `lang`?
pub fn has_translation_for_lang(i18n: &I18n, key: &str, lang: &str) -> (r: bool)
    ensures
        r == (i18n.table().contains_key(key@) && i18n.table()[key@].contains_key(lang@)),
{
    match i18n.translations.get(key) {
        Some(texts) => texts.contains_key(lang),
        None => false,
    }
}

/// Every registered key, each once, in no particular order.
pub fn get_all_keys(i18n: &I18n) -> (r: Vec<String>)
    ensures
        lists_exactly(views(r@), i18n.table().dom()),
        r@.len() == i18n.table().dom().len(),
{
    let r = i18n.translations.keys();
    proof {
        lemma_table_dom(i18n.translations@);
        lemma_keys_listed(r@, i18n.translations@.dom());
    }
    r
}

/// The languages in which `key` has a text, each once; none for an unknown key.
pub fn get_supported_languages(i18n: &I18n, key: &str) -> (r: Vec<String>)
    ensures
        i18n.table().contains_key(key@) ==> lists_exactly(views(r@), i18n.table()[key@].dom()),
        !i18n.table().contains_key(key@) ==> r@.len() == 0,
{
    match i18n.translations.get(key) {
        Some(texts) => {
            let r = texts.keys();
            proof {
                assert(texts_of(*texts).dom() =~= texts@.dom());
                lemma_keys_listed(r@, texts@.dom());
            }
            r
        },
        None => Vec::new(),
    }
}

/// The text that `t` gives for `key`, with its placeholders filled from
/// `args` in order (see `substitute`).
pub fn tf(i18n: &I18n, key: &str, args: &[(&str, &str)]) -> (r: String)
    ensures
        exists|template: Seq<char>|
            lookup_result(i18n.table(), i18n.language(), key@, template)
                && r@ == substituted(template, args@),
{
    let template = t(i18n, key);
    substitute(template.as_str(), args)
}

/// The text that `t_with_lang` gives for `key` and `lang`, with its
/// placeholders filled from `args` in order (see `substitute`).
pub fn tf_with_lang(i18n: &I18n, key: &str, lang: &str, args: &[(&str, &str)]) -> (r: String)
    ensures
        r@ == substituted(exact_lookup(i18n.table(), key@, lang@), args@),
{
    let template = t_with_lang(i18n, key, lang);
    substitute(template.as_str(), args)
}

/// A list of strings whose views list a set exactly, seen through `views`.
proof fn lemma_keys_listed(r: Seq<String>, keys: Set<Seq<char>>)
    requires
        forall|i: int| 0 <= i < r.len() ==> #[trigger] keys.contains(r[i]@),
        forall|k: Seq<char>| #[trigger] keys.contains(k) ==> exists|i: int| 0 <= i < r.len() && r[i]@ == k,
        forall|i: int, j: int| 0 <= i < j < r.len() ==> r[i]@ != r[j]@,
    ensures
        lists_exactly(views(r), keys),
{
    let v = views(r);
    assert forall|i: int| 0 <= i < v.len() implies #[trigger] keys.contains(v[i]) by {
        assert(v[i] == r[i]@);
    }
    assert forall|k: Seq<char>| #[trigger] keys.contains(k) implies exists|i: int| 0 <= i < v.len() && v[i] == k by {
        let i = choose|i: int| 0 <= i < r.len() && r[i]@ == k;
        assert(v[i] == k);
    }
    assert forall|i: int, j: int| 0 <= i < j < v.len() implies v[i] != v[j] by {
        assert(v[i] == r[i]@ && v[j] == r[j]@);
    }
}

/// After the store is cleared, listing its keys gives none, whatever was
/// registered before.
pub proof fn lemma_cleared_store_lists_no_keys(before: I18n, after: I18n, keys: Seq<Seq<char>>)
    requires
        after.table() == Map::<Seq<char>, Map<Seq<char>, Seq<char>>>::empty(),
        after.language() == before.language(),
        lists_exactly(keys, after.table().dom()),
    ensures
        keys.len() == 0,
{
    if keys.len() > 0 {
        assert(after.table().dom().contains(keys[0]));
    }
}

/// Batches whose keys are new to the store and to each other can be
/// registered in either order: both orders succeed, end with the same table,
/// and keep every key of the store and of both batches.
pub proof fn lemma_disjoint_batches_keep_all_keys(
    table: Map<Seq<char>, Map<Seq<char>, Seq<char>>>,
    a: Map<Seq<char>, Map<Seq<char>, Seq<char>>>,
    b: Map<Seq<char>, Map<Seq<char>, Seq<char>>>,
)
    requires
        table.dom().disjoint(a.dom()),
        table.dom().disjoint(b.dom()),
        a.dom().disjoint(b.dom()),
    ensures
        table.union_prefer_right(a).dom().disjoint(b.dom()),
        table.union_prefer_right(b).dom().disjoint(a.dom()),
        table.union_prefer_right(a).union_prefer_right(b)
            == table.union_prefer_right(b).union_prefer_right(a),
        table.union_prefer_right(a).union_prefer_right(b).dom()
            == table.dom().union(a.dom()).union(b.dom()),
{
    assert(table.union_prefer_right(a).dom() =~= table.dom().union(a.dom()));
    assert(table.union_prefer_right(b).dom() =~= table.dom().union(b.dom()));
    assert(table.union_prefer_right(a).union_prefer_right(b)
        =~= table.union_prefer_right(b).union_prefer_right(a));
    assert(table.union_prefer_right(a).union_prefer_right(b).dom()
        =~= table.dom().union(a.dom()).union(b.dom()));
}

} // verus!
