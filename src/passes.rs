//! The character-level rewrite passes: separating punctuation, hyphens,
//! commas and apostrophes.

use vstd::prelude::*;
use crate::language::{SplitProfile, ContractionStyle};
use crate::text::{
    CharClasses, is_letter, is_letter_or_number, is_lower_letter, is_number, is_space, letter, letter_or_number,
    lower_letter, number, replace_all, replace_all_exec, space,
};

verus! {

/// Characters that the general rule leaves attached to their neighbours.
pub open spec fn stays_attached(p: SplitProfile, c: char) -> bool {
    is_letter_or_number(c) || is_space(c) || c == '.' || c == '\'' || c == '`' || c == ','
        || c == '-' || (p == SplitProfile::Colon && c == ':') || (p == SplitProfile::MiddleDot
        && c == '\u{b7}')
}

/// Every character that does not stay attached gets a space on each side.
pub open spec fn pad_specials(s: Seq<char>, p: SplitProfile) -> Seq<char>
    decreases s.len(),
{
    if s.len() == 0 {
        s
    } else if stays_attached(p, s[0]) {
        seq![s[0]] + pad_specials(s.skip(1), p)
    } else {
        seq![' ', s[0], ' '] + pad_specials(s.skip(1), p)
    }
}

/// Every `x` that is not directly followed by a lowercase character gets a
/// space on each side.
pub open spec fn pad_unless_lower_follows(s: Seq<char>, x: char) -> Seq<char>
    decreases s.len(),
{
    if s.len() == 0 {
        s
    } else if s[0] == x && (s.len() == 1 || !is_lower_letter(s[1])) {
        seq![' ', x, ' '] + pad_unless_lower_follows(s.skip(1), x)
    } else {
        seq![s[0]] + pad_unless_lower_follows(s.skip(1), x)
    }
}

/// The character-class splitting of a profile.
pub open spec fn split_characters_spec(s: Seq<char>, p: SplitProfile) -> Seq<char> {
    let t = pad_specials(s, p);
    match p {
        SplitProfile::Colon => pad_unless_lower_follows(t, ':'),
        SplitProfile::Apostrophe => pad_unless_lower_follows(t, '\''),
        SplitProfile::MiddleDot => pad_unless_lower_follows(t, '\u{b7}'),
        SplitProfile::Plain => t,
    }
}

/// A hyphen between two letters or digits becomes ` @-@ `.
pub open spec fn mark_hyphens(s: Seq<char>) -> Seq<char>
    decreases s.len(),
{
    if s.len() < 3 {
        s
    } else if is_letter_or_number(s[0]) && s[1] == '-' && is_letter_or_number(s[2]) {
        seq![s[0], ' ', '@', '-', '@', ' '] + mark_hyphens(s.skip(2))
    } else {
        seq![s[0]] + mark_hyphens(s.skip(1))
    }
}

/// A comma after a character that is not a numeral gets a space on each side.
pub open spec fn comma_after_other(s: Seq<char>) -> Seq<char>
    decreases s.len(),
{
    if s.len() < 2 {
        s
    } else if !is_number(s[0]) && s[1] == ',' {
        seq![s[0], ' ', ',', ' '] + comma_after_other(s.skip(2))
    } else {
        seq![s[0]] + comma_after_other(s.skip(1))
    }
}

/// A comma before a character that is not a numeral gets a space on each side.
pub open spec fn comma_before_other(s: Seq<char>) -> Seq<char>
    decreases s.len(),
{
    if s.len() < 2 {
        s
    } else if s[0] == ',' && !is_number(s[1]) {
        seq![' ', ',', ' ', s[1]] + comma_before_other(s.skip(2))
    } else {
        seq![s[0]] + comma_before_other(s.skip(1))
    }
}

/// A comma that ends the text right after a numeral gets a space before it.
pub open spec fn comma_at_end(s: Seq<char>) -> Seq<char>
    decreases s.len(),
{
    if s.len() < 2 {
        s
    } else if s.len() == 2 && is_number(s[0]) && s[1] == ',' {
        seq![s[0], ' ', ',']
    } else {
        seq![s[0]] + comma_at_end(s.skip(1))
    }
}

/// Commas are separated except inside numbers such as `5,300`.
pub open spec fn separate_commas_spec(s: Seq<char>) -> Seq<char> {
    comma_at_end(comma_before_other(comma_after_other(s)))
}

/// The class a neighbour of an apostrophe must be in for a rule to apply.
#[derive(Debug, PartialEq, Eq, Structural, Clone, Copy)]
pub enum Side {
    NotLetter,
    NotLetterOrNumber,
    Letter,
    Number,
    LowerS,
}

/// Where a rule puts spaces around the apostrophe.
#[derive(Debug, PartialEq, Eq, Structural, Clone, Copy)]
pub enum Gap {
    Around,
    Before,
    After,
}

pub open spec fn side_holds(side: Side, c: char) -> bool {
    match side {
        Side::NotLetter => !is_letter(c),
        Side::NotLetterOrNumber => !is_letter_or_number(c),
        Side::Letter => is_letter(c),
        Side::Number => is_number(c),
        Side::LowerS => c == 's',
    }
}

pub open spec fn gapped(g: Gap, a: char, b: char) -> Seq<char> {
    match g {
        Gap::Around => seq![a, ' ', '\'', ' ', b],
        Gap::Before => seq![a, ' ', '\'', b],
        Gap::After => seq![a, '\'', ' ', b],
    }
}

/// Every apostrophe between a character of class `l` and one of class `r`
/// gets spaces as `g` says.
pub open spec fn apostrophe_rule(s: Seq<char>, l: Side, r: Side, g: Gap) -> Seq<char>
    decreases s.len(),
{
    if s.len() < 3 {
        s
    } else if side_holds(l, s[0]) && s[1] == '\'' && side_holds(r, s[2]) {
        gapped(g, s[0], s[2]) + apostrophe_rule(s.skip(3), l, r, g)
    } else {
        seq![s[0]] + apostrophe_rule(s.skip(1), l, r, g)
    }
}

/// The apostrophe rules shared by the left, right and glottal styles, up to
/// the one for a letter before the apostrophe.
pub open spec fn apostrophe_outer(s: Seq<char>, before_letter: Side) -> Seq<char> {
    let t = apostrophe_rule(s, Side::NotLetter, Side::NotLetter, Gap::Around);
    let u = apostrophe_rule(t, before_letter, Side::Letter, Gap::Around);
    apostrophe_rule(u, Side::Letter, Side::NotLetter, Gap::Around)
}

pub open spec fn split_contractions_spec(s: Seq<char>, style: ContractionStyle) -> Seq<char> {
    match style {
        ContractionStyle::Right => {
            let t = apostrophe_outer(s, Side::NotLetterOrNumber);
            let u = apostrophe_rule(t, Side::Letter, Side::Letter, Gap::Before);
            apostrophe_rule(u, Side::Number, Side::LowerS, Gap::Before)
        },
        ContractionStyle::Left => {
            let t = apostrophe_outer(s, Side::NotLetter);
            apostrophe_rule(t, Side::Letter, Side::Letter, Gap::After)
        },
        ContractionStyle::Glottal => apostrophe_outer(s, Side::NotLetter),
        ContractionStyle::Separate => replace_all(s, seq!['\''], seq![' ', '\'', ' ']),
    }
}

pub fn pad_specials_exec(s: &Vec<char>, p: SplitProfile, classes: &CharClasses) -> (r: Vec<char>)
    ensures
        r@ == pad_specials(s@, p),
{
    let mut out: Vec<char> = Vec::new();
    let mut i: usize = 0;
    assert(s@.skip(0) =~= s@);
    while i < s.len()
        invariant
            i <= s@.len(),
            pad_specials(s@, p) == out@ + pad_specials(s@.skip(i as int), p),
        decreases s@.len() - i,
    {
        let c = s[i];
        assert(s@.skip(i as int).skip(1) =~= s@.skip(i + 1));
        let keep = letter_or_number(c, classes) || space(c) || c == '.' || c == '\'' || c == '`' || c
            == ',' || c == '-' || (p == SplitProfile::Colon && c == ':') || (p
            == SplitProfile::MiddleDot && c == '\u{b7}');
        if keep {
            out.push(c);
        } else {
            out.push(' ');
            out.push(c);
            out.push(' ');
        }
        i += 1;
    }
    assert(out@ + Seq::<char>::empty() =~= out@);
    out
}

pub fn pad_unless_lower_follows_exec(s: &Vec<char>, x: char, classes: &CharClasses) -> (r: Vec<char>)
    ensures
        r@ == pad_unless_lower_follows(s@, x),
{
    let mut out: Vec<char> = Vec::new();
    let mut i: usize = 0;
    assert(s@.skip(0) =~= s@);
    while i < s.len()
        invariant
            i <= s@.len(),
            pad_unless_lower_follows(s@, x) == out@ + pad_unless_lower_follows(
                s@.skip(i as int),
                x,
            ),
        decreases s@.len() - i,
    {
        let c = s[i];
        assert(s@.skip(i as int).skip(1) =~= s@.skip(i + 1));
        if c == x && (i + 1 == s.len() || !lower_letter(s[i + 1], classes)) {
            out.push(' ');
            out.push(c);
            out.push(' ');
        } else {
            out.push(c);
        }
        i += 1;
    }
    assert(out@ + Seq::<char>::empty() =~= out@);
    out
}

/// Separates the characters that the language does not keep inside words.
pub fn split_characters(s: &Vec<char>, p: SplitProfile, classes: &CharClasses) -> (r: Vec<char>)
    ensures
        r@ == split_characters_spec(s@, p),
{
    let t = pad_specials_exec(s, p, classes);
    match p {
        SplitProfile::Colon => pad_unless_lower_follows_exec(&t, ':', classes),
        SplitProfile::Apostrophe => pad_unless_lower_follows_exec(&t, '\'', classes),
        SplitProfile::MiddleDot => pad_unless_lower_follows_exec(&t, '\u{b7}', classes),
        SplitProfile::Plain => t,
    }
}

/// Replaces each hyphen between letters or digits by ` @-@ `.
pub fn mark_hyphens_exec(s: &Vec<char>, classes: &CharClasses) -> (r: Vec<char>)
    ensures
        r@ == mark_hyphens(s@),
{
    let mut out: Vec<char> = Vec::new();
    let mut i: usize = 0;
    assert(s@.skip(0) =~= s@);
    while i < s.len()
        invariant
            i <= s@.len(),
            mark_hyphens(s@) == out@ + mark_hyphens(s@.skip(i as int)),
        decreases s@.len() - i,
    {
        let c = s[i];
        if s.len() - i >= 3 && letter_or_number(c, classes) && s[i + 1] == '-' && letter_or_number(s[i + 2], classes) {
            assert(s@.skip(i as int).skip(2) =~= s@.skip(i + 2));
            out.push(c);
            out.push(' ');
            out.push('@');
            out.push('-');
            out.push('@');
            out.push(' ');
            i += 2;
        } else {
            assert(s@.skip(i as int).skip(1) =~= s@.skip(i + 1));
            if s.len() - i < 3 {
                // Too short for a match: the rest passes unchanged.
                assert(s@.skip(i as int) =~= seq![c] + s@.skip(i + 1));
            }
            out.push(c);
            i += 1;
        }
    }
    assert(out@ + Seq::<char>::empty() =~= out@);
    out
}

pub fn comma_after_other_exec(s: &Vec<char>) -> (r: Vec<char>)
    ensures
        r@ == comma_after_other(s@),
{
    let mut out: Vec<char> = Vec::new();
    let mut i: usize = 0;
    assert(s@.skip(0) =~= s@);
    while i < s.len()
        invariant
            i <= s@.len(),
            comma_after_other(s@) == out@ + comma_after_other(s@.skip(i as int)),
        decreases s@.len() - i,
    {
        let c = s[i];
        if s.len() - i >= 2 && !number(c) && s[i + 1] == ',' {
            assert(s@.skip(i as int).skip(2) =~= s@.skip(i + 2));
            out.push(c);
            out.push(' ');
            out.push(',');
            out.push(' ');
            i += 2;
        } else {
            assert(s@.skip(i as int).skip(1) =~= s@.skip(i + 1));
            out.push(c);
            i += 1;
        }
    }
    assert(out@ + Seq::<char>::empty() =~= out@);
    out
}

pub fn comma_before_other_exec(s: &Vec<char>) -> (r: Vec<char>)
    ensures
        r@ == comma_before_other(s@),
{
    let mut out: Vec<char> = Vec::new();
    let mut i: usize = 0;
    assert(s@.skip(0) =~= s@);
    while i < s.len()
        invariant
            i <= s@.len(),
            comma_before_other(s@) == out@ + comma_before_other(s@.skip(i as int)),
        decreases s@.len() - i,
    {
        let c = s[i];
        if s.len() - i >= 2 && c == ',' && !number(s[i + 1]) {
            assert(s@.skip(i as int).skip(2) =~= s@.skip(i + 2));
            out.push(' ');
            out.push(',');
            out.push(' ');
            out.push(s[i + 1]);
            i += 2;
        } else {
            assert(s@.skip(i as int).skip(1) =~= s@.skip(i + 1));
            out.push(c);
            i += 1;
        }
    }
    assert(out@ + Seq::<char>::empty() =~= out@);
    out
}

pub fn comma_at_end_exec(s: &Vec<char>) -> (r: Vec<char>)
    ensures
        r@ == comma_at_end(s@),
{
    let n = s.len();
    let mut out: Vec<char> = Vec::new();
    let mut i: usize = 0;
    assert(s@.skip(0) =~= s@);
    while i < n
        invariant
            n == s@.len(),
            i <= n,
            comma_at_end(s@) == out@ + comma_at_end(s@.skip(i as int)),
        decreases n - i,
    {
        let c = s[i];
        if n - i == 2 && number(c) && s[i + 1] == ',' {
            out.push(c);
            out.push(' ');
            out.push(',');
            return out;
        }
        assert(s@.skip(i as int).skip(1) =~= s@.skip(i + 1));
        out.push(c);
        i += 1;
    }
    assert(out@ + Seq::<char>::empty() =~= out@);
    out
}

/// Separates commas, except between two numerals.
pub fn separate_commas(s: &Vec<char>) -> (r: Vec<char>)
    ensures
        r@ == separate_commas_spec(s@),
{
    let t = comma_after_other_exec(s);
    let u = comma_before_other_exec(&t);
    comma_at_end_exec(&u)
}

fn side_test(side: Side, c: char, classes: &CharClasses) -> (r: bool)
    ensures
        r == side_holds(side, c),
{
    match side {
        Side::NotLetter => !letter(c, classes),
        Side::NotLetterOrNumber => !letter_or_number(c, classes),
        Side::Letter => letter(c, classes),
        Side::Number => number(c),
        Side::LowerS => c == 's',
    }
}

pub fn apostrophe_rule_exec(s: &Vec<char>, l: Side, r: Side, g: Gap, classes: &CharClasses) -> (res: Vec<char>)
    ensures
        res@ == apostrophe_rule(s@, l, r, g),
{
    let mut out: Vec<char> = Vec::new();
    let mut i: usize = 0;
    assert(s@.skip(0) =~= s@);
    while i < s.len()
        invariant
            i <= s@.len(),
            apostrophe_rule(s@, l, r, g) == out@ + apostrophe_rule(s@.skip(i as int), l, r, g),
        decreases s@.len() - i,
    {
        let c = s[i];
        if s.len() - i >= 3 && side_test(l, c, classes) && s[i + 1] == '\'' && side_test(r, s[i + 2], classes) {
            assert(s@.skip(i as int).skip(3) =~= s@.skip(i + 3));
            let d = s[i + 2];
            out.push(c);
            match g {
                Gap::Around => {
                    out.push(' ');
                    out.push('\'');
                    out.push(' ');
                },
                Gap::Before => {
                    out.push(' ');
                    out.push('\'');
                },
                Gap::After => {
                    out.push('\'');
                    out.push(' ');
                },
            }
            out.push(d);
            i += 3;
        } else {
            assert(s@.skip(i as int).skip(1) =~= s@.skip(i + 1));
            if s.len() - i < 3 {
                // Too short for a match: the rest passes unchanged.
                assert(s@.skip(i as int) =~= seq![c] + s@.skip(i + 1));
            }
            out.push(c);
            i += 1;
        }
    }
    assert(out@ + Seq::<char>::empty() =~= out@);
    out
}

fn apostrophe_outer_exec(s: &Vec<char>, before_letter: Side, classes: &CharClasses) -> (r: Vec<char>)
    ensures
        r@ == apostrophe_outer(s@, before_letter),
{
    let t = apostrophe_rule_exec(s, Side::NotLetter, Side::NotLetter, Gap::Around, classes);
    let u = apostrophe_rule_exec(&t, before_letter, Side::Letter, Gap::Around, classes);
    apostrophe_rule_exec(&u, Side::Letter, Side::NotLetter, Gap::Around, classes)
}

/// Splits apostrophes off words in the way the contraction style says.
pub fn split_contractions(s: &Vec<char>, style: ContractionStyle, classes: &CharClasses) -> (r: Vec<char>)
    ensures
        r@ == split_contractions_spec(s@, style),
{
    match style {
        ContractionStyle::Right => {
            let t = apostrophe_outer_exec(s, Side::NotLetterOrNumber, classes);
            let u = apostrophe_rule_exec(&t, Side::Letter, Side::Letter, Gap::Before, classes);
            apostrophe_rule_exec(&u, Side::Number, Side::LowerS, Gap::Before, classes)
        },
        ContractionStyle::Left => {
            let t = apostrophe_outer_exec(s, Side::NotLetter, classes);
            apostrophe_rule_exec(&t, Side::Letter, Side::Letter, Gap::After, classes)
        },
        ContractionStyle::Glottal => apostrophe_outer_exec(s, Side::NotLetter, classes),
        ContractionStyle::Separate => {
            let pat = vec!['\''];
            let rep = vec![' ', '\'', ' '];
            assert(pat@ =~= seq!['\'']);
            assert(rep@ =~= seq![' ', '\'', ' ']);
            replace_all_exec(s, &pat, &rep)
        },
    }
}

} // verus!
