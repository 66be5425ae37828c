//! The tokenization of a line and of a text, composed from the passes.

use vstd::prelude::*;
use crate::abbrev::{NonbreakingPrefixes, PrefixType, resolve_periods, resolve_periods_spec};
use crate::escape::{escape, escape_spec, escaped_text_has_no_markup, is_markup, lemma_escape_concat};
pub use crate::language::Language;
use crate::language::{contraction_style_of, split_profile_of};
use crate::multidot::{hide_dots, hide_dots_spec, restore_dots, restore_dots_spec, tag, tag_chars};
use crate::normalize::{collapse, collapse_whitespace, lemma_collapse_space_end, normalize, normalize_spec};
use crate::passes::{
    mark_hyphens,
    mark_hyphens_exec,
    separate_commas,
    separate_commas_spec,
    split_characters,
    split_characters_spec,
    split_contractions,
    split_contractions_spec,
};
use crate::protect::{
    PatternError, ProtectedPattern, all_valid, compile_patterns, copy_entries, entry_views, find_literal,
    lemma_literal_spans_ordered, literal_spans, pattern_views, protect_from, protect_named, protect_patterns,
    protect_spans, protected_entries, restore_from, restore_protected, str_views,
};
use crate::text::{CharClasses, chars_of, string_of};
use crate::newline::{
    entries_without_newline, lemma_core_no_newline, lemma_escape_no_newline, line_ends_with_one_line_feed,
    lemma_normalized, no_newline,
};

verus! {

/// The passes between protection and restoration: punctuation, hyphens,
/// multi-period runs, commas, contractions and sentence-final periods.
pub open spec fn split_tokens_spec(
    s: Seq<char>,
    language: Language,
    aggressive_hyphen_splitting: bool,
    prefixes: Map<Seq<char>, PrefixType>,
) -> Seq<char> {
    let a = split_characters_spec(collapse(s), split_profile_of(language));
    let b = if aggressive_hyphen_splitting {
        mark_hyphens(a)
    } else {
        a
    };
    let c = separate_commas_spec(hide_dots_spec(b));
    resolve_periods_spec(split_contractions_spec(c, contraction_style_of(language)), prefixes)
}

/// `s` with a line feed appended unless it already ends with one.
pub open spec fn with_newline(s: Seq<char>) -> Seq<char> {
    if s.len() > 0 && s.last() == '\n' {
        s
    } else {
        s.push('\n')
    }
}

/// A line whose protected matches were replaced by the placeholders of
/// `subs`, tokenized and with those matches put back, before escaping. Text
/// that spells the multi-period tag is itself set aside behind further
/// placeholders, so that only the tagging makes tags.
pub open spec fn line_core(
    s: Seq<char>,
    subs: Seq<(Seq<char>, Seq<char>)>,
    language: Language,
    aggressive_hyphen_splitting: bool,
    prefixes: Map<Seq<char>, PrefixType>,
) -> Seq<char> {
    let spans = literal_spans(s, tag(), 0);
    let hidden = protect_from(s, spans, 0, 0, subs.len());
    let entries = subs + protected_entries(s, spans, subs.len());
    let t = split_tokens_spec(hidden, language, aggressive_hyphen_splitting, prefixes);
    restore_from(restore_dots_spec(t), entries)
}

/// The tokenization of a line whose protected matches were replaced by the
/// placeholders of `subs`.
pub open spec fn finish_line_spec(
    s: Seq<char>,
    subs: Seq<(Seq<char>, Seq<char>)>,
    language: Language,
    no_escaping: bool,
    aggressive_hyphen_splitting: bool,
    prefixes: Map<Seq<char>, PrefixType>,
) -> Seq<char> {
    let u = line_core(s, subs, language, aggressive_hyphen_splitting, prefixes);
    with_newline(if no_escaping { u } else { escape_spec(u) })
}

/// The tokenization of a line, each protected pattern of `sources` matched in
/// turn against the text the earlier ones left.
#[verifier::opaque]
pub open spec fn tokenize_line_spec(
    text: Seq<char>,
    sources: Seq<Seq<char>>,
    language: Language,
    no_escaping: bool,
    aggressive_hyphen_splitting: bool,
    prefixes: Map<Seq<char>, PrefixType>,
) -> Seq<char> {
    let p = protect_named(normalize_spec(text), sources, 0);
    finish_line_spec(p.0, p.1, language, no_escaping, aggressive_hyphen_splitting, prefixes)
}

/// Tokenizes a line whose protected matches were already replaced by the
/// placeholders recorded in `substitutions`, and puts those matches back.
pub fn finish_line(
    text: &Vec<char>,
    substitutions: &Vec<(Vec<char>, Vec<char>)>,
    language: Language,
    no_escaping: bool,
    aggresive_hyphen_splitting: bool,
    prefixes: &NonbreakingPrefixes,
) -> (r: String)
    ensures
        r@ == finish_line_spec(
            text@,
            entry_views(substitutions@),
            language,
            no_escaping,
            aggresive_hyphen_splitting,
            prefixes@,
        ),
{
    let classes = CharClasses::new();
    let v = finish_line_chars(text, substitutions, language, no_escaping, aggresive_hyphen_splitting, prefixes, &classes);
    string_of(&v)
}

fn finish_line_chars(
    text: &Vec<char>,
    substitutions: &Vec<(Vec<char>, Vec<char>)>,
    language: Language,
    no_escaping: bool,
    aggresive_hyphen_splitting: bool,
    prefixes: &NonbreakingPrefixes,
    classes: &CharClasses,
) -> (r: Vec<char>)
    ensures
        r@ == finish_line_spec(
            text@,
            entry_views(substitutions@),
            language,
            no_escaping,
            aggresive_hyphen_splitting,
            prefixes@,
        ),
{
    let _ = text.len();
    let mut entries = copy_entries(substitutions);
    let spans = find_literal(text, &tag_chars());
    proof {
        lemma_literal_spans_ordered(text@, tag(), 0);
    }
    let hidden = protect_spans(text, &spans, &mut entries);
    let a = split_characters(&collapse_whitespace(&hidden), language.split_profile(), classes);
    let b = if aggresive_hyphen_splitting {
        mark_hyphens_exec(&a, classes)
    } else {
        a
    };
    let c = separate_commas(&hide_dots(&b));
    let d = resolve_periods(&split_contractions(&c, language.contraction_style(), classes), prefixes);
    let u = restore_protected(&restore_dots(&d), &entries);
    let mut v = if no_escaping {
        u
    } else {
        escape(&u)
    };
    let n = v.len();
    if n == 0 || v[n - 1] != '\n' {
        v.push('\n');
    }
    v
}

/// Tokenizes one line: normalizes its whitespace, sets aside what the
/// protected patterns match, separates punctuation by the rules of the
/// language, and ends the result with a line feed.
pub fn moses_tokenize_line(
    text: &str,
    language: Language,
    no_escaping: bool,
    aggresive_hyphen_splitting: bool,
    protected_patterns: &Vec<ProtectedPattern>,
    prefixes: &NonbreakingPrefixes,
) -> (r: String)
    ensures
        r@ == tokenize_line_spec(
            text@,
            pattern_views(protected_patterns@),
            language,
            no_escaping,
            aggresive_hyphen_splitting,
            prefixes@,
        ),
        r@.len() >= 1 && r@.last() == '\n' && no_newline(r@.drop_last()),
{
    let chars = chars_of(text);
    let classes = CharClasses::new();
    let v = tokenize_line_chars(&chars, language, no_escaping, aggresive_hyphen_splitting, protected_patterns, prefixes, &classes);
    string_of(&v)
}

fn tokenize_line_chars(
    text: &Vec<char>,
    language: Language,
    no_escaping: bool,
    aggresive_hyphen_splitting: bool,
    protected_patterns: &Vec<ProtectedPattern>,
    prefixes: &NonbreakingPrefixes,
    classes: &CharClasses,
) -> (r: Vec<char>)
    ensures
        r@ == tokenize_line_spec(
            text@,
            pattern_views(protected_patterns@),
            language,
            no_escaping,
            aggresive_hyphen_splitting,
            prefixes@,
        ),
        r@.len() >= 1 && r@.last() == '\n' && no_newline(r@.drop_last()),
{
    let normalized = normalize(text);
    let mut subs: Vec<(Vec<char>, Vec<char>)> = Vec::new();
    proof {
        lemma_normalized(text@);
        assert(entry_views(subs@) =~= Seq::empty());
    }
    let protected = protect_patterns(&normalized, protected_patterns, &mut subs);
    let _ = protected.len();
    proof {
        line_ends_with_one_line_feed(protected@, entry_views(subs@), language, no_escaping, aggresive_hyphen_splitting, prefixes@);
        assert(entry_views(subs@).skip(0) =~= entry_views(subs@));
    }
    let r = finish_line_chars(&protected, &subs, language, no_escaping, aggresive_hyphen_splitting, prefixes, classes);
    proof {
        reveal(tokenize_line_spec);
    }
    r
}

/// The number of characters before the first line feed.
pub open spec fn line_len(s: Seq<char>) -> nat
    decreases s.len(),
{
    if s.len() == 0 || s[0] == '\n' {
        0
    } else {
        1 + line_len(s.skip(1))
    }
}

/// A line without the carriage return that may end it.
pub open spec fn strip_return(l: Seq<char>) -> Seq<char> {
    if l.len() > 0 && l.last() == '\r' {
        l.drop_last()
    } else {
        l
    }
}

/// The lines of a text: split at each line feed, without a last empty line
/// after a final line feed; a carriage return before a line feed is dropped.
pub open spec fn lines(s: Seq<char>) -> Seq<Seq<char>>
    decreases s.len(),
{
    if s.len() == 0 {
        Seq::empty()
    } else {
        let k = line_len(s);
        if k < s.len() {
            seq![strip_return(s.take(k as int))] + lines(s.skip(k as int + 1))
        } else {
            seq![s]
        }
    }
}

/// The tokenizations of the lines, one after another.
pub open spec fn tokenize_lines_spec(
    ls: Seq<Seq<char>>,
    sources: Seq<Seq<char>>,
    language: Language,
    no_escaping: bool,
    aggressive_hyphen_splitting: bool,
    prefixes: Map<Seq<char>, PrefixType>,
) -> Seq<char>
    decreases ls.len(),
{
    if ls.len() == 0 {
        Seq::empty()
    } else {
        tokenize_line_spec(ls[0], sources, language, no_escaping, aggressive_hyphen_splitting, prefixes)
            + tokenize_lines_spec(ls.skip(1), sources, language, no_escaping, aggressive_hyphen_splitting, prefixes)
    }
}

pub(crate) proof fn lemma_line_len(s: Seq<char>, k: int)
    requires
        0 <= k <= s.len(),
        forall|j: int| 0 <= j < k ==> s[j] != '\n',
        k == s.len() || s[k] == '\n',
    ensures
        line_len(s) == k,
    decreases k,
{
    if k > 0 {
        lemma_line_len(s.skip(1), k - 1);
    }
}

/// Tokenizes each line of a text and joins the results, each of which ends
/// with a line feed. Fails if a protected pattern is not a valid regular
/// expression, before any line is tokenized.
pub fn moses_tokenize(
    text: &str,
    language: Language,
    no_escaping: bool,
    aggresive_hyphen_splitting: bool,
    protected_patterns: &[&str],
    prefixes: &NonbreakingPrefixes,
) -> (r: Result<String, PatternError>)
    ensures
        r.is_ok() == all_valid(str_views(protected_patterns@)),
        r.is_ok() ==> r.unwrap()@ == tokenize_lines_spec(
            lines(text@),
            str_views(protected_patterns@),
            language,
            no_escaping,
            aggresive_hyphen_splitting,
            prefixes@,
        ),
{
    let regexes = match compile_patterns(protected_patterns) {
        Ok(v) => v,
        Err(e) => return Err(e),
    };
    let ghost srcs = str_views(protected_patterns@);
    let classes = CharClasses::new();
    let s = chars_of(text);
    let n = s.len();
    let mut out: Vec<char> = Vec::new();
    let mut i: usize = 0;
    assert(s@.skip(0) =~= s@);
    assert(out@ + tokenize_lines_spec(lines(s@), srcs, language, no_escaping, aggresive_hyphen_splitting, prefixes@) =~= tokenize_lines_spec(lines(s@), srcs, language, no_escaping, aggresive_hyphen_splitting, prefixes@));
    while i < n
        invariant
            n == s@.len(),
            i <= n,
            pattern_views(regexes@) == srcs,
            tokenize_lines_spec(lines(s@), srcs, language, no_escaping, aggresive_hyphen_splitting, prefixes@)
                == out@ + tokenize_lines_spec(lines(s@.skip(i as int)), srcs, language, no_escaping, aggresive_hyphen_splitting, prefixes@),
        decreases n - i,
    {
        let ghost rest = s@.skip(i as int);
        let mut line: Vec<char> = Vec::new();
        let mut j: usize = i;
        while j < n && s[j] != '\n'
            invariant
                n == s@.len(),
                i <= j <= n,
                forall|k: int| i <= k < j ==> s@[k] != '\n',
                line@ == s@.subrange(i as int, j as int),
            decreases n - j,
        {
            line.push(s[j]);
            j += 1;
            assert(s@.subrange(i as int, j as int) =~= s@.subrange(i as int, j - 1) + seq![s@[j - 1]]);
        }
        proof {
            lemma_line_len(rest, j - i);
            assert(rest.take(j - i) =~= line@);
        }
        let ghost raw = line@;
        let ln = line.len();
        if j < n && ln > 0 && line[ln - 1] == '\r' {
            line.pop();
        }
        assert(j < n ==> line@ =~= strip_return(raw));
        assert(j == n ==> line@ =~= raw);
        let piece = tokenize_line_chars(&line, language, no_escaping, aggresive_hyphen_splitting, &regexes, prefixes, &classes);
        let ghost before = out@;
        crate::text::push_all(&mut out, &piece);
        if j < n {
            proof {
                assert(rest.skip(j - i + 1) =~= s@.skip(j + 1));
                let ls = lines(rest);
                assert(ls =~= seq![line@] + lines(s@.skip(j + 1)));
                assert(ls.skip(1) =~= lines(s@.skip(j + 1)));
            }
            i = j + 1;
        } else {
            proof {
                assert(rest =~= rest.take(j - i));
                assert(line@ == rest);
                assert(s@.skip(j as int) =~= Seq::<char>::empty());
                let ls = lines(rest);
                assert(ls =~= seq![line@]);
                assert(ls.skip(1) =~= Seq::<Seq<char>>::empty());
            }
            i = j;
        }
    }
    assert(s@.skip(i as int) =~= Seq::<char>::empty());
    assert(out@ + Seq::<char>::empty() =~= out@);
    Ok(string_of(&out))
}

/// A line that ends with a line feed tokenizes as the same line without it.
pub proof fn trailing_line_feed_is_ignored(
    text: Seq<char>,
    sources: Seq<Seq<char>>,
    language: Language,
    no_escaping: bool,
    aggressive_hyphen_splitting: bool,
    prefixes: Map<Seq<char>, PrefixType>,
)
    ensures
        tokenize_line_spec(text.push('\n'), sources, language, no_escaping, aggressive_hyphen_splitting, prefixes)
            == tokenize_line_spec(text, sources, language, no_escaping, aggressive_hyphen_splitting, prefixes),
{
    reveal(tokenize_line_spec);
    lemma_collapse_space_end(text, '\n', false, false);
    assert(text.push('\n') == text + seq!['\n']);
}

/// With escaping on, a line tokenizes as the line tokenized without escaping,
/// each character then replaced by its entity: `&` first and once, so no
/// entity is escaped again, and none of `|`, `<`, `>`, `'`, `"`, `[`, `]`
/// is left.
pub proof fn escaped_line_is_escaped_plain_line(
    s: Seq<char>,
    subs: Seq<(Seq<char>, Seq<char>)>,
    language: Language,
    aggressive_hyphen_splitting: bool,
    prefixes: Map<Seq<char>, PrefixType>,
)
    requires
        no_newline(s),
        entries_without_newline(subs),
        s.len() <= usize::MAX,
    ensures
        finish_line_spec(s, subs, language, false, aggressive_hyphen_splitting, prefixes) == escape_spec(
            finish_line_spec(s, subs, language, true, aggressive_hyphen_splitting, prefixes),
        ),
        forall|i: int|
            0 <= i < finish_line_spec(s, subs, language, false, aggressive_hyphen_splitting, prefixes).len()
                ==> !is_markup(
                #[trigger] finish_line_spec(s, subs, language, false, aggressive_hyphen_splitting, prefixes)[i],
            ),
{
    let u = line_core(s, subs, language, aggressive_hyphen_splitting, prefixes);
    lemma_core_no_newline(s, subs, language, aggressive_hyphen_splitting, prefixes);
    lemma_escape_no_newline(u);
    let e = escape_spec(u);
    assert(with_newline(u) == u.push('\n'));
    assert(with_newline(e) == e.push('\n'));
    lemma_escape_concat(u, seq!['\n']);
    assert(u.push('\n') == u + seq!['\n']);
    assert(escape_spec(seq!['\n']) =~= seq!['\n']) by {
        reveal_with_fuel(escape_spec, 2);
    }
    assert(e + seq!['\n'] == e.push('\n'));
    escaped_text_has_no_markup(u.push('\n'));
}

} // verus!
