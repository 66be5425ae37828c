//! Character classes and small operations on character sequences.

use vstd::prelude::*;
use regex::Regex;

verus! {

/// What `char::is_alphabetic` reports for a character.
pub uninterp spec fn alphabetic(c: char) -> bool;

/// What `char::is_numeric` reports for a character.
pub uninterp spec fn numeric(c: char) -> bool;

/// What `char::is_lowercase` reports for a character.
pub uninterp spec fn lowercase(c: char) -> bool;

/// What `char::is_whitespace` reports for a character.
pub uninterp spec fn whitespace(c: char) -> bool;

/// Whether the regular expression class `\p{L}` (general category L) holds
/// of a character.
pub uninterp spec fn letter_category(c: char) -> bool;

/// Whether the regular expression class `\p{Ll}` (general category Ll) holds
/// of a character.
pub uninterp spec fn lower_letter_category(c: char) -> bool;

/// The Unicode classes the tokenizer takes from the regular expression
/// engine, compiled once: `\p{L}` and `\p{Ll}`, each matching exactly one
/// character.
pub struct CharClasses {
    letter: Regex,
    lower_letter: Regex,
}

impl CharClasses {
    /// Relies on `regex::Regex::new`, which accepts both fixed patterns.
    #[verifier::external_body]
    pub fn new() -> (r: CharClasses) {
        CharClasses {
            letter: Regex::new(r"\A\p{L}\z").unwrap(),
            lower_letter: Regex::new(r"\A\p{Ll}\z").unwrap(),
        }
    }
}

/// Relies on `regex::Regex::is_match` with the class `\p{L}`.
#[verifier::external_body]
fn in_letter_category(classes: &CharClasses, c: char) -> (r: bool)
    ensures
        r == letter_category(c),
{
    let mut buf = [0u8; 4];
    classes.letter.is_match(c.encode_utf8(&mut buf))
}

/// Relies on `regex::Regex::is_match` with the class `\p{Ll}`.
#[verifier::external_body]
fn in_lower_letter_category(classes: &CharClasses, c: char) -> (r: bool)
    ensures
        r == lower_letter_category(c),
{
    let mut buf = [0u8; 4];
    classes.lower_letter.is_match(c.encode_utf8(&mut buf))
}

/// Relies on `char::is_alphabetic`: Unicode's Alphabetic property.
#[verifier::external_body]
fn std_is_alphabetic(c: char) -> (r: bool)
    ensures
        r == alphabetic(c),
{
    c.is_alphabetic()
}

/// Relies on `char::is_numeric`: Unicode's general categories Nd, Nl and No.
#[verifier::external_body]
fn std_is_numeric(c: char) -> (r: bool)
    ensures
        r == numeric(c),
{
    c.is_numeric()
}

/// Relies on `char::is_lowercase`: Unicode's Lowercase property.
#[verifier::external_body]
fn std_is_lowercase(c: char) -> (r: bool)
    ensures
        r == lowercase(c),
{
    c.is_lowercase()
}

/// Relies on `char::is_whitespace`: Unicode's White_Space property.
#[verifier::external_body]
fn std_is_whitespace(c: char) -> (r: bool)
    ensures
        r == whitespace(c),
{
    c.is_whitespace()
}

pub open spec fn is_ascii_char(c: char) -> bool {
    (c as u32) < 128
}

pub open spec fn ascii_letter(c: char) -> bool {
    ('a' <= c && c <= 'z') || ('A' <= c && c <= 'Z')
}

pub open spec fn ascii_digit(c: char) -> bool {
    '0' <= c && c <= '9'
}

/// An alphabetic character: the Alphabetic property, which on ASCII holds
/// of `A-Z` and `a-z`.
pub open spec fn is_alpha(c: char) -> bool {
    if is_ascii_char(c) {
        ascii_letter(c)
    } else {
        alphabetic(c)
    }
}

/// A letter: Unicode's general category L, which on ASCII holds of `A-Z`
/// and `a-z`.
pub open spec fn is_letter(c: char) -> bool {
    if is_ascii_char(c) {
        ascii_letter(c)
    } else {
        letter_category(c)
    }
}

/// A lowercase letter: Unicode's general category Ll, which on ASCII holds
/// of `a-z`.
pub open spec fn is_lower_letter(c: char) -> bool {
    if is_ascii_char(c) {
        'a' <= c && c <= 'z'
    } else {
        lower_letter_category(c)
    }
}

/// A numeral: general category N, which on ASCII holds of `0-9`.
pub open spec fn is_number(c: char) -> bool {
    if is_ascii_char(c) {
        ascii_digit(c)
    } else {
        numeric(c)
    }
}

/// A lowercase character, which on ASCII is `a-z`.
pub open spec fn is_lower(c: char) -> bool {
    if is_ascii_char(c) {
        'a' <= c && c <= 'z'
    } else {
        lowercase(c)
    }
}

/// A whitespace character, which on ASCII is tab, line feed, vertical tab,
/// form feed, carriage return and space.
pub open spec fn is_space(c: char) -> bool {
    if is_ascii_char(c) {
        c == ' ' || ('\t' <= c && c <= '\r')
    } else {
        whitespace(c)
    }
}

pub open spec fn is_letter_or_number(c: char) -> bool {
    is_letter(c) || is_number(c)
}

pub fn alpha(c: char) -> (r: bool)
    ensures
        r == is_alpha(c),
{
    if (c as u32) < 128 {
        ('a' <= c && c <= 'z') || ('A' <= c && c <= 'Z')
    } else {
        std_is_alphabetic(c)
    }
}

pub fn letter(c: char, classes: &CharClasses) -> (r: bool)
    ensures
        r == is_letter(c),
{
    if (c as u32) < 128 {
        ('a' <= c && c <= 'z') || ('A' <= c && c <= 'Z')
    } else {
        in_letter_category(classes, c)
    }
}

pub fn lower_letter(c: char, classes: &CharClasses) -> (r: bool)
    ensures
        r == is_lower_letter(c),
{
    if (c as u32) < 128 {
        'a' <= c && c <= 'z'
    } else {
        in_lower_letter_category(classes, c)
    }
}

pub fn number(c: char) -> (r: bool)
    ensures
        r == is_number(c),
{
    if (c as u32) < 128 {
        '0' <= c && c <= '9'
    } else {
        std_is_numeric(c)
    }
}

pub fn lower(c: char) -> (r: bool)
    ensures
        r == is_lower(c),
{
    if (c as u32) < 128 {
        'a' <= c && c <= 'z'
    } else {
        std_is_lowercase(c)
    }
}

pub fn space(c: char) -> (r: bool)
    ensures
        r == is_space(c),
{
    if (c as u32) < 128 {
        c == ' ' || ('\t' <= c && c <= '\r')
    } else {
        std_is_whitespace(c)
    }
}

pub fn letter_or_number(c: char, classes: &CharClasses) -> (r: bool)
    ensures
        r == is_letter_or_number(c),
{
    letter(c, classes) || number(c)
}

/// Relies on `str::chars`: the characters of a string, in order.
#[verifier::external_body]
pub(crate) fn chars_of(s: &str) -> (r: Vec<char>)
    ensures
        r@ == s@,
{
    s.chars().collect()
}

/// Relies on `FromIterator<char>` for `String`: the string of these characters.
#[verifier::external_body]
pub(crate) fn string_of(v: &Vec<char>) -> (r: String)
    ensures
        r@ == v@,
{
    v.iter().collect()
}

/// Appends every character of `src` to `out`.
pub fn push_all(out: &mut Vec<char>, src: &Vec<char>)
    ensures
        final(out)@ == old(out)@ + src@,
{
    let mut i: usize = 0;
    while i < src.len()
        invariant
            i <= src@.len(),
            out@ == old(out)@ + src@.take(i as int),
        decreases src@.len() - i,
    {
        out.push(src[i]);
        i += 1;
        assert(src@.take(i as int) =~= src@.take(i - 1) + seq![src@[i - 1]]);
    }
    assert(src@.take(i as int) =~= src@);
}

/// `pat` occurs in `s` at position `i`.
pub open spec fn occurs_at(s: Seq<char>, pat: Seq<char>, i: int) -> bool {
    0 <= i && i + pat.len() <= s.len() && s.subrange(i, i + pat.len()) == pat
}

pub open spec fn contains_seq(s: Seq<char>, pat: Seq<char>) -> bool {
    exists|i: int| occurs_at(s, pat, i)
}

/// Every occurrence of `pat` in `s` replaced by `rep`, occurrences taken
/// from left to right without overlap.
pub open spec fn replace_all(s: Seq<char>, pat: Seq<char>, rep: Seq<char>) -> Seq<char>
    decreases s.len(),
{
    if s.len() == 0 {
        s
    } else if pat.len() > 0 && occurs_at(s, pat, 0) {
        rep + replace_all(s.skip(pat.len() as int), pat, rep)
    } else {
        seq![s[0]] + replace_all(s.skip(1), pat, rep)
    }
}

pub fn occurs_at_exec(s: &Vec<char>, pat: &Vec<char>, i: usize) -> (r: bool)
    requires
        i <= s@.len(),
    ensures
        r == occurs_at(s@, pat@, i as int),
{
    if pat.len() > s.len() - i {
        return false;
    }
    let n = s.len();
    let mut j: usize = 0;
    while j < pat.len()
        invariant
            n == s@.len(),
            i + pat@.len() <= n,
            j <= pat@.len(),
            forall|k: int| 0 <= k < j ==> s@[i + k] == pat@[k],
        decreases pat@.len() - j,
    {
        if s[i + j] != pat[j] {
            assert(s@.subrange(i as int, i + pat@.len())[j as int] != pat@[j as int]);
            return false;
        }
        j += 1;
    }
    assert(s@.subrange(i as int, i + pat@.len()) =~= pat@);
    true
}

pub fn contains_exec(s: &Vec<char>, pat: &Vec<char>) -> (r: bool)
    ensures
        r == contains_seq(s@, pat@),
{
    if pat.len() > s.len() {
        return false;
    }
    let last = s.len() - pat.len();
    let mut i: usize = 0;
    while i < last
        invariant
            last == s@.len() - pat@.len(),
            i <= last,
            forall|k: int| 0 <= k < i ==> !occurs_at(s@, pat@, k),
        decreases last - i,
    {
        if occurs_at_exec(s, pat, i) {
            return true;
        }
        i += 1;
    }
    occurs_at_exec(s, pat, last)
}

pub fn replace_all_exec(s: &Vec<char>, pat: &Vec<char>, rep: &Vec<char>) -> (r: Vec<char>)
    ensures
        r@ == replace_all(s@, pat@, rep@),
{
    let mut out: Vec<char> = Vec::new();
    let mut i: usize = 0;
    assert(s@.skip(0) =~= s@);
    while i < s.len()
        invariant
            i <= s@.len(),
            replace_all(s@, pat@, rep@) == out@ + replace_all(s@.skip(i as int), pat@, rep@),
        decreases s@.len() - i,
    {
        let ghost rest = s@.skip(i as int);
        if pat.len() > 0 && occurs_at_exec(s, pat, i) {
            assert(rest.subrange(0, pat@.len() as int) =~= s@.subrange(i as int, i + pat@.len()));
            assert(rest.skip(pat@.len() as int) =~= s@.skip(i + pat@.len()));
            push_all(&mut out, rep);
            i += pat.len();
        } else {
            assert(!occurs_at(rest, pat@, 0) || pat@.len() == 0) by {
                if pat@.len() > 0 && occurs_at(rest, pat@, 0) {
                    assert(s@.subrange(i as int, i + pat@.len()) =~= rest.subrange(0, pat@.len() as int));
                }
            }
            assert(rest.skip(1) =~= s@.skip(i + 1));
            out.push(s[i]);
            i += 1;
        }
    }
    assert(s@.skip(i as int) =~= Seq::<char>::empty());
    assert(out@ + Seq::<char>::empty() =~= out@);
    out
}

} // verus!
