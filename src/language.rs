//! Language tags: turning loosely written tags into the canonical `xx-XX` form.

use vstd::prelude::*;
use vstd::utf8::encode_utf8;
use crate::text::{chars_of, string_of};

verus! {

/// What `str::trim` makes of a string.
pub uninterp spec fn trimmed_of(s: Seq<char>) -> Seq<char>;

/// What `str::to_lowercase` makes of a string.
pub uninterp spec fn lower_of(s: Seq<char>) -> Seq<char>;

/// What `str::to_uppercase` makes of a string.
pub uninterp spec fn upper_of(s: Seq<char>) -> Seq<char>;

pub open spec fn is_ascii_char(c: char) -> bool {
    (c as u32) < 128
}

pub open spec fn is_ascii_seq(s: Seq<char>) -> bool {
    forall|i: int| 0 <= i < s.len() ==> is_ascii_char(#[trigger] s[i])
}

/// The ASCII white space characters: space, tab, line feed, vertical tab,
/// form feed and carriage return.
pub open spec fn is_ascii_space(c: char) -> bool {
    c == ' ' || c == '\t' || c == '\n' || c == '\r' || c as u32 == 11 || c as u32 == 12
}

pub open spec fn ascii_lower(c: char) -> char {
    if 65 <= c as u32 <= 90 {
        ((c as u32) + 32) as char
    } else {
        c
    }
}

pub open spec fn ascii_upper(c: char) -> char {
    if 97 <= c as u32 <= 122 {
        ((c as u32) - 32) as char
    } else {
        c
    }
}

pub open spec fn ascii_lower_seq(s: Seq<char>) -> Seq<char> {
    s.map_values(|c: char| ascii_lower(c))
}

pub open spec fn ascii_upper_seq(s: Seq<char>) -> Seq<char> {
    s.map_values(|c: char| ascii_upper(c))
}

/// `s` without its leading ASCII white space.
pub open spec fn trim_start_ascii(s: Seq<char>) -> Seq<char>
    decreases s.len(),
{
    if s.len() > 0 && is_ascii_space(s[0]) {
        trim_start_ascii(s.drop_first())
    } else {
        s
    }
}

/// `s` without its trailing ASCII white space.
pub open spec fn trim_end_ascii(s: Seq<char>) -> Seq<char>
    decreases s.len(),
{
    if s.len() > 0 && is_ascii_space(s.last()) {
        trim_end_ascii(s.drop_last())
    } else {
        s
    }
}

/// `s` without leading and trailing ASCII white space.
pub open spec fn trim_ascii(s: Seq<char>) -> Seq<char> {
    trim_end_ascii(trim_start_ascii(s))
}

/// Relies on `str::trim`: leading and trailing white space removed. On an
/// ASCII string the white space characters are exactly the ASCII ones.
#[verifier::external_body]
fn trim(s: &str) -> (r: &str)
    ensures
        r@ == trimmed_of(s@),
        is_ascii_seq(s@) ==> r@ == trim_ascii(s@),
{
    s.trim()
}

/// Relies on `str::to_lowercase`: the lowercase equivalent, which on an ASCII
/// string maps `A`..`Z` to `a`..`z` and keeps every other character.
#[verifier::external_body]
fn to_lowercase(s: &str) -> (r: String)
    ensures
        r@ == lower_of(s@),
        is_ascii_seq(s@) ==> r@ == ascii_lower_seq(s@),
{
    s.to_lowercase()
}

/// Relies on `str::to_uppercase`: the uppercase equivalent, which on an ASCII
/// string maps `a`..`z` to `A`..`Z` and keeps every other character.
#[verifier::external_body]
fn to_uppercase(s: &str) -> (r: String)
    ensures
        r@ == upper_of(s@),
        is_ascii_seq(s@) ==> r@ == ascii_upper_seq(s@),
{
    s.to_uppercase()
}

/// For each known language, written as two lowercase letters, its region in
/// lowercase and in uppercase.
pub open spec fn known_region(l0: char, l1: char) -> Option<(char, char, char, char)> {
    match (l0, l1) {
        ('z', 'h') => Some(('c', 'n', 'C', 'N')),
        ('e', 'n') => Some(('u', 's', 'U', 'S')),
        ('j', 'a') => Some(('j', 'p', 'J', 'P')),
        ('k', 'o') => Some(('k', 'r', 'K', 'R')),
        ('f', 'r') => Some(('f', 'r', 'F', 'R')),
        ('d', 'e') => Some(('d', 'e', 'D', 'E')),
        ('e', 's') => Some(('e', 's', 'E', 'S')),
        ('i', 't') => Some(('i', 't', 'I', 'T')),
        ('r', 'u') => Some(('r', 'u', 'R', 'U')),
        ('p', 't') => Some(('b', 'r', 'B', 'R')),
        ('a', 'r') => Some(('s', 'a', 'S', 'A')),
        ('h', 'i') => Some(('i', 'n', 'I', 'N')),
        ('t', 'h') => Some(('t', 'h', 'T', 'H')),
        ('v', 'i') => Some(('v', 'n', 'V', 'N')),
        _ => None,
    }
}

/// The canonical tag of a known alias: `c` is a lowercase language code `xx`,
/// or `xx_rr` or `xx-rr` with the language's own region `rr`.
pub open spec fn alias_of(c: Seq<char>) -> Option<Seq<char>> {
    if c.len() == 2 || (c.len() == 5 && (c[2] == '_' || c[2] == '-')) {
        match known_region(c[0], c[1]) {
            Some((r0, r1, u0, u1)) => if c.len() == 2 || (c[3] == r0 && c[4] == r1) {
                Some(seq![c[0], c[1], '-', u0, u1])
            } else {
                None
            },
            None => None,
        }
    } else {
        None
    }
}

/// The default tag, `en-US`.
pub open spec fn default_tag() -> Seq<char> {
    seq!['e', 'n', '-', 'U', 'S']
}

/// Five bytes long in UTF-8, with `-` as the third character.
pub open spec fn tag_shaped(c: Seq<char>) -> bool {
    encode_utf8(c).len() == 5 && c.len() > 2 && c[2] == '-'
}

/// The normalized form of an already trimmed and lowercased code `c`, given
/// what uppercasing makes of it.
pub open spec fn normalize_lowered(c: Seq<char>, upper: Seq<char>) -> Seq<char> {
    match alias_of(c) {
        Some(tag) => tag,
        None => if tag_shaped(c) {
            upper
        } else {
            default_tag()
        },
    }
}

/// The normalized form of `code`: trimmed and lowercased, then a known alias
/// gives its canonical tag, a tag-shaped code is uppercased, and anything
/// else becomes `en-US`.
pub open spec fn normalized(code: Seq<char>) -> Seq<char> {
    let c = lower_of(trimmed_of(code));
    normalize_lowered(c, upper_of(c))
}

/// The normalized form of an ASCII `code`, with every step spelled out.
pub open spec fn normalized_ascii(code: Seq<char>) -> Seq<char> {
    let c = ascii_lower_seq(trim_ascii(code));
    normalize_lowered(c, ascii_upper_seq(c))
}

fn region_of(l0: char, l1: char) -> (r: Option<(char, char, char, char)>)
    ensures
        r == known_region(l0, l1),
{
    match (l0, l1) {
        ('z', 'h') => Some(('c', 'n', 'C', 'N')),
        ('e', 'n') => Some(('u', 's', 'U', 'S')),
        ('j', 'a') => Some(('j', 'p', 'J', 'P')),
        ('k', 'o') => Some(('k', 'r', 'K', 'R')),
        ('f', 'r') => Some(('f', 'r', 'F', 'R')),
        ('d', 'e') => Some(('d', 'e', 'D', 'E')),
        ('e', 's') => Some(('e', 's', 'E', 'S')),
        ('i', 't') => Some(('i', 't', 'I', 'T')),
        ('r', 'u') => Some(('r', 'u', 'R', 'U')),
        ('p', 't') => Some(('b', 'r', 'B', 'R')),
        ('a', 'r') => Some(('s', 'a', 'S', 'A')),
        ('h', 'i') => Some(('i', 'n', 'I', 'N')),
        ('t', 'h') => Some(('t', 'h', 'T', 'H')),
        ('v', 'i') => Some(('v', 'n', 'V', 'N')),
        _ => None,
    }
}

fn alias(c: &Vec<char>) -> (r: Option<Vec<char>>)
    ensures
        match r {
            Some(v) => alias_of(c@) == Some(v@),
            None => alias_of(c@).is_none(),
        },
{
    let n = c.len();
    if n == 2 || (n == 5 && (c[2] == '_' || c[2] == '-')) {
        match region_of(c[0], c[1]) {
            Some((r0, r1, u0, u1)) => {
                if n == 2 || (c[3] == r0 && c[4] == r1) {
                    let v = vec![c[0], c[1], '-', u0, u1];
                    assert(v@ =~= seq![c@[0], c@[1], '-', u0, u1]);
                    Some(v)
                } else {
                    None
                }
            },
            None => None,
        }
    } else {
        None
    }
}

/// Brings a language code into the canonical `xx-XX` form.
///
/// The code is trimmed and lowercased. A known alias of one of the supported
/// languages (`zh`, `zh_cn`, `zh-cn`, ...) gives that language's canonical tag;
/// a code of five bytes with `-` as its third character is uppercased; anything
/// else gives `en-US`.
pub fn normalize_language_code(code: &str) -> (r: String)
    ensures
        r@ == normalized(code@),
        is_ascii_seq(code@) ==> r@ == normalized_ascii(code@),
{
    let trimmed = trim(code);
    proof {
        if is_ascii_seq(code@) {
            lemma_trim_ascii(code@);
        }
    }
    let lower = to_lowercase(trimmed);
    let cs = chars_of(lower.as_str());
    match alias(&cs) {
        Some(v) => string_of(&v),
        None => {
            proof {
                lemma_utf8_len_bounds(cs@);
            }
            if cs.len() > 2 && cs.len() <= 5 && cs[2] == '-' && lower.as_str().len() == 5 {
                let r = to_uppercase(lower.as_str());
                proof {
                    if is_ascii_seq(code@) {
                        assert(is_ascii_seq(lower@));
                    }
                }
                r
            } else {
                let v = vec!['e', 'n', '-', 'U', 'S'];
                assert(v@ =~= default_tag());
                string_of(&v)
            }
        },
    }
}

/// Does `code` normalize to the `xx-XX` shape: five bytes, `-` third?
pub fn is_valid_language_code(code: &str) -> (r: bool)
    ensures
        r == tag_shaped(normalized(code@)),
{
    let normalized = normalize_language_code(code);
    let cs = chars_of(normalized.as_str());
    proof {
        lemma_utf8_len_bounds(cs@);
    }
    cs.len() > 2 && cs.len() <= 5 && cs[2] == '-' && normalized.as_str().len() == 5
}

/// Normalizing an ASCII code twice gives the same as normalizing it once, and
/// the normalized form is itself ASCII.
pub proof fn lemma_normalize_idempotent(code: Seq<char>)
    requires
        is_ascii_seq(code),
    ensures
        is_ascii_seq(normalized_ascii(code)),
        normalized_ascii(normalized_ascii(code)) == normalized_ascii(code),
{
    let t = trim_ascii(code);
    lemma_trim_ascii(code);
    let c = ascii_lower_seq(t);
    match alias_of(c) {
        Some(tag) => {
            lemma_canonical_fixed(c[0], c[1]);
        },
        None => {
            if tag_shaped(c) {
                let out = ascii_upper_seq(c);
                assert(is_ascii_seq(out));
                lemma_trim_unchanged(out);
                assert(ascii_lower_seq(out) =~= c);
            } else {
                lemma_canonical_fixed('e', 'n');
            }
        },
    }
}

/// A string with no ASCII white space at either end is its own trimmed form.
proof fn lemma_trim_unchanged(s: Seq<char>)
    requires
        s.len() > 0 ==> !is_ascii_space(s[0]) && !is_ascii_space(s.last()),
    ensures
        trim_ascii(s) == s,
{
}

/// The canonical tag of a known language is ASCII and normalizes to itself.
proof fn lemma_canonical_fixed(l0: char, l1: char)
    requires
        known_region(l0, l1).is_some(),
    ensures
        ({
            let (r0, r1, u0, u1) = known_region(l0, l1).unwrap();
            let tag = seq![l0, l1, '-', u0, u1];
            is_ascii_seq(tag) && normalized_ascii(tag) == tag
        }),
{
    let (r0, r1, u0, u1) = known_region(l0, l1).unwrap();
    let tag = seq![l0, l1, '-', u0, u1];
    lemma_trim_unchanged(tag);
    assert(ascii_lower_seq(tag) =~= seq![l0, l1, '-', r0, r1]);
}

/// Each character takes one to four bytes in UTF-8.
proof fn lemma_utf8_len_bounds(c: Seq<char>)
    ensures
        c.len() <= encode_utf8(c).len() <= 4 * c.len(),
    decreases c.len(),
{
    if c.len() > 0 {
        lemma_utf8_len_bounds(c.drop_first());
    }
}

/// Trimming an ASCII string keeps it ASCII and leaves no white space at
/// either end.
proof fn lemma_trim_ascii(s: Seq<char>)
    requires
        is_ascii_seq(s),
    ensures
        is_ascii_seq(trim_ascii(s)),
        trim_ascii(s).len() > 0 ==> !is_ascii_space(trim_ascii(s)[0]),
        trim_ascii(s).len() > 0 ==> !is_ascii_space(trim_ascii(s).last()),
{
    lemma_trim_start(s);
    lemma_trim_end(trim_start_ascii(s));
}

proof fn lemma_trim_start(s: Seq<char>)
    requires
        is_ascii_seq(s),
    ensures
        is_ascii_seq(trim_start_ascii(s)),
        trim_start_ascii(s).len() > 0 ==> !is_ascii_space(trim_start_ascii(s)[0]),
    decreases s.len(),
{
    if s.len() > 0 && is_ascii_space(s[0]) {
        let t = s.drop_first();
        assert(is_ascii_seq(t)) by {
            assert forall|i: int| 0 <= i < t.len() implies is_ascii_char(#[trigger] t[i]) by {
                assert(t[i] == s[i + 1]);
            }
        }
        lemma_trim_start(t);
    }
}

proof fn lemma_trim_end(s: Seq<char>)
    requires
        is_ascii_seq(s),
        s.len() > 0 ==> !is_ascii_space(s[0]),
    ensures
        is_ascii_seq(trim_end_ascii(s)),
        trim_end_ascii(s).len() > 0 ==> !is_ascii_space(trim_end_ascii(s)[0]),
        trim_end_ascii(s).len() > 0 ==> !is_ascii_space(trim_end_ascii(s).last()),
    decreases s.len(),
{
    if s.len() > 0 && is_ascii_space(s.last()) {
        let t = s.drop_last();
        assert(is_ascii_seq(t)) by {
            assert forall|i: int| 0 <= i < t.len() implies is_ascii_char(#[trigger] t[i]) by {
                assert(t[i] == s[i]);
            }
        }
        if t.len() > 0 {
            assert(t[0] == s[0]);
        }
        lemma_trim_end(t);
    }
}

} // verus!
