//! The rules that reject a candidate name before it can collect votes.
//!
//! Each rule is a predicate over the original name or over the English
//! rendering; an entry is recorded only when no rule rejects it.
use vstd::prelude::*;

use crate::text::{
    chars_of, contains_exec, contains_seq, ends_with, ends_with_exec, has_ws, has_ws_exec, is_ws,
    is_whitespace, lower_of, lowercase,
};

verus! {

/// Punctuation and separators that never occur inside a single name part.
pub open spec fn is_separator(c: char) -> bool {
    c == '\u{30fb}' ||
        c == '\u{ff65}' ||
        c == '\u{ff61}' ||
        c == '\u{ff64}' ||
        c == ',' ||
        c == '\u{ff0c}' ||
        c == '\u{3002}' ||
        c == '\u{ff0f}' ||
        c == '/' ||
        c == '\u{ff1a}' ||
        c == ':' ||
        c == ';' ||
        c == '!' ||
        c == '\u{ff01}' ||
        c == '?' ||
        c == '\u{ff1f}' ||
        c == '-' ||
        c == '\u{2014}' ||
        c == '\u{2013}' ||
        c == '\u{2011}' ||
        c == '\u{b7}' ||
        c == '\u{ff08}' ||
        c == '\u{ff09}' ||
        c == '(' ||
        c == ')' ||
        c == '\u{ff3b}' ||
        c == ']' ||
        c == '{' ||
        c == '}' ||
        c == '\u{ff1c}' ||
        c == '\u{ff1e}' ||
        c == '<' ||
        c == '>' ||
        c == '\u{300e}' ||
        c == '\u{300f}' ||
        c == '\u{300c}' ||
        c == '\u{300d}' ||
        c == '\u{3008}' ||
        c == '\u{3009}' ||
        c == '\u{3010}' ||
        c == '\u{3011}'
}

/// A character that may not occur in an original name: whitespace or a separator.
pub open spec fn is_bad_original_char(c: char) -> bool {
    is_ws(c) || is_separator(c)
}

/// Whether `c` may not occur in an original name.
pub fn bad_original_char(c: char) -> (r: bool)
    ensures
        r == is_bad_original_char(c),
{
    is_whitespace(c) || c == '\u{30fb}' ||
        c == '\u{ff65}' ||
        c == '\u{ff61}' ||
        c == '\u{ff64}' ||
        c == ',' ||
        c == '\u{ff0c}' ||
        c == '\u{3002}' ||
        c == '\u{ff0f}' ||
        c == '/' ||
        c == '\u{ff1a}' ||
        c == ':' ||
        c == ';' ||
        c == '!' ||
        c == '\u{ff01}' ||
        c == '?' ||
        c == '\u{ff1f}' ||
        c == '-' ||
        c == '\u{2014}' ||
        c == '\u{2013}' ||
        c == '\u{2011}' ||
        c == '\u{b7}' ||
        c == '\u{ff08}' ||
        c == '\u{ff09}' ||
        c == '(' ||
        c == ')' ||
        c == '\u{ff3b}' ||
        c == ']' ||
        c == '{' ||
        c == '}' ||
        c == '\u{ff1c}' ||
        c == '\u{ff1e}' ||
        c == '<' ||
        c == '>' ||
        c == '\u{300e}' ||
        c == '\u{300f}' ||
        c == '\u{300c}' ||
        c == '\u{300d}' ||
        c == '\u{3008}' ||
        c == '\u{3009}' ||
        c == '\u{3010}' ||
        c == '\u{3011}'
}

/// Whether some character of `s` may not occur in an original name.
pub open spec fn has_bad_original_char(s: Seq<char>) -> bool {
    exists|i: int| 0 <= i < s.len() && is_bad_original_char(#[trigger] s[i])
}

/// Pronouns and generic words that are not character names.
pub open spec fn original_denylist() -> Seq<Seq<char>> {
    seq![
        seq!['\u{5f7c}'],
        seq!['\u{5f7c}', '\u{5973}'],
        seq!['\u{3042}', '\u{3044}', '\u{3064}'],
        seq!['\u{3053}', '\u{3044}', '\u{3064}'],
        seq!['\u{305d}', '\u{3044}', '\u{3064}'],
        seq!['\u{3053}', '\u{3061}', '\u{3068}', '\u{3089}'],
        seq!['\u{3053}', '\u{3061}', '\u{3089}'],
        seq!['\u{81ea}', '\u{5206}'],
        seq!['\u{79c1}'],
        seq!['\u{308f}', '\u{305f}', '\u{3057}'],
        seq!['\u{308f}', '\u{305f}', '\u{304f}', '\u{3057}'],
        seq!['\u{4ffa}'],
        seq!['\u{304a}', '\u{308c}'],
        seq!['\u{50d5}'],
        seq!['\u{307c}', '\u{304f}'],
        seq!['\u{3046}', '\u{3061}'],
        seq!['\u{3042}', '\u{306a}', '\u{305f}'],
        seq!['\u{541b}'],
        seq!['\u{304d}', '\u{307f}'],
        seq!['\u{304a}', '\u{524d}'],
        seq!['\u{304a}', '\u{307e}', '\u{3048}'],
        seq!['\u{8cb4}', '\u{69d8}'],
        seq!['\u{5f7c}', '\u{3089}'],
        seq!['\u{5f7c}', '\u{5973}', '\u{3089}'],
        seq!['\u{4ffa}', '\u{305f}', '\u{3061}'],
        seq!['\u{50d5}', '\u{3089}'],
        seq!['\u{79c1}', '\u{305f}', '\u{3061}'],
        seq!['\u{3042}', '\u{306a}', '\u{305f}', '\u{305f}', '\u{3061}'],
        seq!['\u{7686}'],
        seq!['\u{307f}', '\u{3093}', '\u{306a}'],
    ]
}

fn original_denylist_exec() -> (r: Vec<Vec<char>>)
    ensures
        r.deep_view() == original_denylist(),
{
    let r = vec![
        vec!['\u{5f7c}'],
        vec!['\u{5f7c}', '\u{5973}'],
        vec!['\u{3042}', '\u{3044}', '\u{3064}'],
        vec!['\u{3053}', '\u{3044}', '\u{3064}'],
        vec!['\u{305d}', '\u{3044}', '\u{3064}'],
        vec!['\u{3053}', '\u{3061}', '\u{3068}', '\u{3089}'],
        vec!['\u{3053}', '\u{3061}', '\u{3089}'],
        vec!['\u{81ea}', '\u{5206}'],
        vec!['\u{79c1}'],
        vec!['\u{308f}', '\u{305f}', '\u{3057}'],
        vec!['\u{308f}', '\u{305f}', '\u{304f}', '\u{3057}'],
        vec!['\u{4ffa}'],
        vec!['\u{304a}', '\u{308c}'],
        vec!['\u{50d5}'],
        vec!['\u{307c}', '\u{304f}'],
        vec!['\u{3046}', '\u{3061}'],
        vec!['\u{3042}', '\u{306a}', '\u{305f}'],
        vec!['\u{541b}'],
        vec!['\u{304d}', '\u{307f}'],
        vec!['\u{304a}', '\u{524d}'],
        vec!['\u{304a}', '\u{307e}', '\u{3048}'],
        vec!['\u{8cb4}', '\u{69d8}'],
        vec!['\u{5f7c}', '\u{3089}'],
        vec!['\u{5f7c}', '\u{5973}', '\u{3089}'],
        vec!['\u{4ffa}', '\u{305f}', '\u{3061}'],
        vec!['\u{50d5}', '\u{3089}'],
        vec!['\u{79c1}', '\u{305f}', '\u{3061}'],
        vec!['\u{3042}', '\u{306a}', '\u{305f}', '\u{305f}', '\u{3061}'],
        vec!['\u{7686}'],
        vec!['\u{307f}', '\u{3093}', '\u{306a}'],
    ];
    assert(r.deep_view() =~~= original_denylist());
    r
}

/// Japanese honorific suffixes; an original ending in one is not a bare name.
pub open spec fn honorific_suffixes() -> Seq<Seq<char>> {
    seq![
        seq!['\u{3055}', '\u{3093}'],
        seq!['\u{3061}', '\u{3083}', '\u{3093}'],
        seq!['\u{304f}', '\u{3093}'],
        seq!['\u{541b}'],
        seq!['\u{69d8}'],
        seq!['\u{3055}', '\u{307e}'],
        seq!['\u{6bbf}'],
        seq!['\u{6c0f}'],
        seq!['\u{5148}', '\u{751f}'],
        seq!['\u{5148}', '\u{8f29}'],
        seq!['\u{5b22}'],
    ]
}

fn honorific_suffixes_exec() -> (r: Vec<Vec<char>>)
    ensures
        r.deep_view() == honorific_suffixes(),
{
    let r = vec![
        vec!['\u{3055}', '\u{3093}'],
        vec!['\u{3061}', '\u{3083}', '\u{3093}'],
        vec!['\u{304f}', '\u{3093}'],
        vec!['\u{541b}'],
        vec!['\u{69d8}'],
        vec!['\u{3055}', '\u{307e}'],
        vec!['\u{6bbf}'],
        vec!['\u{6c0f}'],
        vec!['\u{5148}', '\u{751f}'],
        vec!['\u{5148}', '\u{8f29}'],
        vec!['\u{5b22}'],
    ];
    assert(r.deep_view() =~~= honorific_suffixes());
    r
}

/// Romanised honorifics; a lower-cased rendering containing one is rejected.
pub open spec fn english_honorifics() -> Seq<Seq<char>> {
    seq![
        seq!['-', 's', 'a', 'n'],
        seq!['-', 'c', 'h', 'a', 'n'],
        seq!['-', 'k', 'u', 'n'],
        seq!['-', 's', 'a', 'm', 'a'],
        seq![' ', 's', 'a', 'n'],
        seq![' ', 'c', 'h', 'a', 'n'],
        seq![' ', 'k', 'u', 'n'],
        seq![' ', 's', 'a', 'm', 'a'],
    ]
}

fn english_honorifics_exec() -> (r: Vec<Vec<char>>)
    ensures
        r.deep_view() == english_honorifics(),
{
    let r = vec![
        vec!['-', 's', 'a', 'n'],
        vec!['-', 'c', 'h', 'a', 'n'],
        vec!['-', 'k', 'u', 'n'],
        vec!['-', 's', 'a', 'm', 'a'],
        vec![' ', 's', 'a', 'n'],
        vec![' ', 'c', 'h', 'a', 'n'],
        vec![' ', 'k', 'u', 'n'],
        vec![' ', 's', 'a', 'm', 'a'],
    ];
    assert(r.deep_view() =~~= english_honorifics());
    r
}

/// Whether `s` is one of the denylisted words.
pub open spec fn is_denylisted(s: Seq<char>) -> bool {
    original_denylist().contains(s)
}

/// Whether `s` ends with a Japanese honorific.
pub open spec fn has_honorific_suffix(s: Seq<char>) -> bool {
    exists|i: int| 0 <= i < honorific_suffixes().len() && ends_with(s, #[trigger] honorific_suffixes()[i])
}

/// Whether the lower-cased rendering `lower` holds a romanised honorific.
pub open spec fn has_english_honorific(lower: Seq<char>) -> bool {
    exists|i: int|
        0 <= i < english_honorifics().len() && contains_seq(lower, #[trigger] english_honorifics()[i])
}

/// The rules on an original name: not empty, no whitespace or separator,
/// not a denylisted word, no honorific suffix.
pub open spec fn original_rejected(o: Seq<char>) -> bool {
    o.len() == 0 || has_bad_original_char(o) || is_denylisted(o) || has_honorific_suffix(o)
}

/// The rules on an English rendering: not empty, no whitespace, and no
/// romanised honorific in its lower-cased form.
pub open spec fn english_rejected(e: Seq<char>) -> bool {
    e.len() == 0 || has_ws(e) || has_english_honorific(lower_of(e))
}

/// Whether a candidate `(original, english)` passes every rule.
pub open spec fn entry_accepted(o: Seq<char>, e: Seq<char>) -> bool {
    !original_rejected(o) && !english_rejected(e)
}

fn seq_equal(a: &Vec<char>, b: &Vec<char>) -> (r: bool)
    ensures
        r == (a@ == b@),
{
    if a.len() != b.len() {
        return false;
    }
    let mut i: usize = 0;
    while i < a.len()
        invariant
            a.len() == b.len(),
            i <= a.len(),
            forall|j: int| 0 <= j < i ==> a@[j] == b@[j],
        decreases a.len() - i,
    {
        if a[i] != b[i] {
            return false;
        }
        i = i + 1;
    }
    assert(a@ =~= b@);
    true
}

fn has_bad_char_exec(s: &Vec<char>) -> (r: bool)
    ensures
        r == has_bad_original_char(s@),
{
    let mut i: usize = 0;
    while i < s.len()
        invariant
            i <= s.len(),
            forall|j: int| 0 <= j < i ==> !is_bad_original_char(s@[j]),
        decreases s.len() - i,
    {
        if bad_original_char(s[i]) {
            return true;
        }
        i = i + 1;
    }
    false
}

fn is_denylisted_exec(s: &Vec<char>) -> (r: bool)
    ensures
        r == is_denylisted(s@),
{
    let list = original_denylist_exec();
    let mut i: usize = 0;
    while i < list.len()
        invariant
            i <= list.len(),
            list.deep_view() == original_denylist(),
            forall|j: int| 0 <= j < i ==> original_denylist()[j] != s@,
        decreases list.len() - i,
    {
        assert(list.deep_view()[i as int] == list[i as int]@);
        if seq_equal(&list[i], s) {
            assert(original_denylist()[i as int] == s@);
            return true;
        }
        i = i + 1;
    }
    false
}

fn has_honorific_suffix_exec(s: &Vec<char>) -> (r: bool)
    ensures
        r == has_honorific_suffix(s@),
{
    let list = honorific_suffixes_exec();
    let mut i: usize = 0;
    while i < list.len()
        invariant
            i <= list.len(),
            list.deep_view() == honorific_suffixes(),
            forall|j: int| 0 <= j < i ==> !ends_with(s@, #[trigger] honorific_suffixes()[j]),
        decreases list.len() - i,
    {
        assert(list.deep_view()[i as int] == list[i as int]@);
        if ends_with_exec(s, &list[i]) {
            return true;
        }
        i = i + 1;
    }
    false
}

fn has_english_honorific_exec(lower: &Vec<char>) -> (r: bool)
    ensures
        r == has_english_honorific(lower@),
{
    let list = english_honorifics_exec();
    let mut i: usize = 0;
    while i < list.len()
        invariant
            i <= list.len(),
            list.deep_view() == english_honorifics(),
            forall|j: int| 0 <= j < i ==> !contains_seq(lower@, #[trigger] english_honorifics()[j]),
        decreases list.len() - i,
    {
        assert(list.deep_view()[i as int] == list[i as int]@);
        if contains_exec(lower, &list[i]) {
            return true;
        }
        i = i + 1;
    }
    false
}

/// Whether no rule rejects `original` as an original name.
pub fn original_is_valid(original: &str) -> (r: bool)
    ensures
        r == !original_rejected(original@),
{
    let s = chars_of(original);
    !(s.len() == 0 || has_bad_char_exec(&s) || is_denylisted_exec(&s) || has_honorific_suffix_exec(
        &s,
    ))
}

/// Whether no rule rejects the rendering `english`, given its lower-cased
/// form `lower`.
pub fn english_is_valid_lowered(english: &str, lower: &str) -> (r: bool)
    ensures
        r == !(english@.len() == 0 || has_ws(english@) || has_english_honorific(lower@)),
{
    let s = chars_of(english);
    if s.len() == 0 || has_ws_exec(&s) {
        return false;
    }
    let l = chars_of(lower);
    !has_english_honorific_exec(&l)
}

/// Whether no rule rejects `english` as a rendering.
pub fn english_is_valid(english: &str) -> (r: bool)
    ensures
        r == !english_rejected(english@),
{
    let lower = lowercase(english);
    english_is_valid_lowered(english, lower.as_str())
}

/// Whether the candidate `(original, english)` passes every rule.
pub fn entry_is_valid(original: &str, english: &str) -> (r: bool)
    ensures
        r == entry_accepted(original@, english@),
{
    original_is_valid(original) && english_is_valid(english)
}

} // verus!
