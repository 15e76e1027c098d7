//! Character-level helpers on strings: conversion to and from character
//! vectors, and literal substring replacement.

use vstd::prelude::*;

verus! {

/// Relies on `str::chars` collected into a `Vec`: the characters of `s`, in order.
#[verifier::external_body]
pub(crate) fn chars_of(s: &str) -> (r: Vec<char>)
    ensures
        r@ == s@,
{
    s.chars().collect()
}

/// Relies on `String`'s `FromIterator<&char>`: the string made of the characters of `v`, in order.
#[verifier::external_body]
pub(crate) fn string_of(v: &Vec<char>) -> (r: String)
    ensures
        r@ == v@,
{
    v.iter().collect()
}

/// Does `pat` occur in `s` starting at position `i`?
pub open spec fn occurs_at(s: Seq<char>, pat: Seq<char>, i: int) -> bool {
    0 <= i && i + pat.len() <= s.len() && s.subrange(i, i + pat.len()) == pat
}

/// `s` with every occurrence of the non-empty `pat` replaced by `rep`, scanning
/// from the left and never matching inside a replaced occurrence. An empty
/// pattern leaves `s` as it is.
pub open spec fn replace_all(s: Seq<char>, pat: Seq<char>, rep: Seq<char>) -> Seq<char>
    decreases s.len(),
{
    if s.len() == 0 {
        s
    } else if pat.len() > 0 && occurs_at(s, pat, 0) {
        rep + replace_all(s.subrange(pat.len() as int, s.len() as int), pat, rep)
    } else {
        seq![s[0]] + replace_all(s.drop_first(), pat, rep)
    }
}

/// The placeholder `{name}` for a parameter called `name`.
pub open spec fn placeholder(name: Seq<char>) -> Seq<char> {
    seq!['{'] + name + seq!['}']
}

/// The text shown for a key with no usable translation: `[key]`.
pub open spec fn bracketed(key: Seq<char>) -> Seq<char> {
    seq!['['] + key + seq![']']
}

/// Does `s` hold `pat` at position `i`? Checked character by character.
fn matches_at(s: &Vec<char>, pat: &Vec<char>, i: usize) -> (r: bool)
    requires
        i + pat@.len() <= s@.len(),
    ensures
        r == occurs_at(s@, pat@, i as int),
{
    let n: usize = s.len();
    let mut j: usize = 0;
    while j < pat.len()
        invariant
            j <= pat@.len(),
            i + pat@.len() <= n,
            n == s@.len(),
            forall|k: int| 0 <= k < j ==> s@[i + k] == pat@[k],
        decreases pat@.len() - j,
    {
        if s[i + j] != pat[j] {
            assert(s@.subrange(i as int, i + pat@.len())[j as int] != pat@[j as int]);
            return false;
        }
        j = j + 1;
    }
    assert(s@.subrange(i as int, i + pat@.len()) =~= pat@);
    true
}

/// Appends the characters of `src` to `dst`.
pub(crate) fn push_all(dst: &mut Vec<char>, src: &Vec<char>)
    ensures
        final(dst)@ == old(dst)@ + src@,
{
    let mut j: usize = 0;
    while j < src.len()
        invariant
            j <= src@.len(),
            dst@ == old(dst)@ + src@.subrange(0, j as int),
        decreases src@.len() - j,
    {
        dst.push(src[j]);
        j = j + 1;
        assert(src@.subrange(0, j as int) =~= src@.subrange(0, j - 1) + seq![src@[j - 1]]);
    }
    assert(src@.subrange(0, src@.len() as int) =~= src@);
}

/// Replaces every occurrence of `pat` in `s` by `rep`, left to right.
pub fn replace_chars(s: &Vec<char>, pat: &Vec<char>, rep: &Vec<char>) -> (r: Vec<char>)
    ensures
        r@ == replace_all(s@, pat@, rep@),
{
    let mut out: Vec<char> = Vec::new();
    let mut i: usize = 0;
    assert(s@.subrange(0, s@.len() as int) =~= s@);
    while i < s.len()
        invariant
            i <= s@.len(),
            out@ + replace_all(s@.subrange(i as int, s@.len() as int), pat@, rep@)
                == replace_all(s@, pat@, rep@),
        decreases s@.len() - i,
    {
        let rest = Ghost(s@.subrange(i as int, s@.len() as int));
        if pat.len() > 0 && pat.len() <= s.len() - i && matches_at(s, pat, i) {
            assert(rest@.subrange(0, pat@.len() as int) =~= s@.subrange(i as int, i + pat@.len()));
            assert(rest@.subrange(pat@.len() as int, rest@.len() as int)
                =~= s@.subrange(i + pat@.len(), s@.len() as int));
            push_all(&mut out, rep);
            i = i + pat.len();
        } else {
            proof {
                if pat@.len() > 0 && occurs_at(rest@, pat@, 0) {
                    assert(rest@.subrange(0, pat@.len() as int) =~= s@.subrange(i as int, i + pat@.len()));
                }
            }
            assert(rest@.drop_first() =~= s@.subrange(i + 1, s@.len() as int));
            out.push(s[i]);
            i = i + 1;
        }
    }
    assert(s@.subrange(s@.len() as int, s@.len() as int) =~= Seq::<char>::empty());
    out
}

/// `[key]`, the text shown for a key with no usable translation.
pub(crate) fn bracket(key: &str) -> (r: String)
    ensures
        r@ == bracketed(key@),
{
    let mut v: Vec<char> = vec!['['];
    push_all(&mut v, &chars_of(key));
    v.push(']');
    assert(v@ =~= bracketed(key@));
    string_of(&v)
}

/// `{name}`, the placeholder for the parameter `name`.
pub(crate) fn braced(name: &str) -> (r: Vec<char>)
    ensures
        r@ == placeholder(name@),
{
    let mut v: Vec<char> = vec!['{'];
    push_all(&mut v, &chars_of(name));
    v.push('}');
    assert(v@ =~= placeholder(name@));
    v
}

/// `s` after replacing, for each pair of `args` in order, every placeholder
/// `{name}` by its value.
pub open spec fn substituted(s: Seq<char>, args: Seq<(&str, &str)>) -> Seq<char>
    decreases args.len(),
{
    if args.len() == 0 {
        s
    } else {
        substituted(replace_all(s, placeholder(args[0].0@), args[0].1@), args.drop_first())
    }
}

/// Fills the placeholders of `template`: for each `(name, value)` of `args`
/// in order, every `{name}` is replaced by `value`. Placeholders without an
/// argument stay as they are; arguments without a placeholder are ignored.
pub fn substitute(template: &str, args: &[(&str, &str)]) -> (r: String)
    ensures
        r@ == substituted(template@, args@),
{
    let mut result = chars_of(template);
    let mut i: usize = 0;
    assert(args@.subrange(0, args@.len() as int) =~= args@);
    while i < args.len()
        invariant
            i <= args@.len(),
            substituted(result@, args@.subrange(i as int, args@.len() as int))
                == substituted(template@, args@),
        decreases args@.len() - i,
    {
        let (name, value) = args[i];
        let pat = braced(name);
        let rep = chars_of(value);
        assert(args@.subrange(i as int, args@.len() as int).drop_first()
            =~= args@.subrange(i + 1, args@.len() as int));
        result = replace_chars(&result, &pat, &rep);
        i = i + 1;
    }
    assert(args@.subrange(i as int, args@.len() as int) =~= Seq::<(&str, &str)>::empty());
    string_of(&result)
}

} // verus!
