//! No pass of the tokenization introduces a line feed, so a tokenized line
//! holds exactly one: the one that ends it.

use vstd::prelude::*;
use crate::abbrev::{join, resolve_periods_spec, resolve_word, resolve_words, split_final_quote, word_len, words};
use crate::escape::{entity, escape_spec};
use crate::moses::{finish_line_spec, line_core, split_tokens_spec, with_newline};
use crate::multidot::{
    absorb_all, absorb_before_other, absorb_step, count_char, hide_dots_spec, lemma_absorb_step_count,
    lemma_replace_len, restore_dots_spec, tag, tag_dot, tag_grown, tag_runs, unwind,
};
use crate::normalize::{collapse, collapse_from, drop_controls, normalize_spec};
use crate::passes::{
    apostrophe_outer, apostrophe_rule, comma_after_other, comma_at_end, comma_before_other, gapped,
    mark_hyphens, pad_specials, pad_unless_lower_follows, separate_commas_spec, split_characters_spec,
    split_contractions_spec, Gap, Side,
};
use crate::language::{Language, SplitProfile};
use crate::abbrev::PrefixType;
use crate::protect::{lemma_literal_spans_ordered, literal_spans, fixed_digits, digit_char, placeholder, placeholder_prefix, protect_from, protected_entries, restore_from, spans_ordered};
use crate::text::{contains_seq, replace_all};

verus! {

pub open spec fn no_newline(s: Seq<char>) -> bool {
    forall|i: int| 0 <= i < s.len() ==> #[trigger] s[i] != '\n'
}

/// Neither side of every entry holds a line feed.
pub open spec fn entries_without_newline(subs: Seq<(Seq<char>, Seq<char>)>) -> bool {
    forall|k: int| 0 <= k < subs.len() ==> no_newline(#[trigger] subs[k].0) && no_newline(subs[k].1)
}

pub proof fn lemma_replace_all(s: Seq<char>, pat: Seq<char>, rep: Seq<char>)
    requires
        no_newline(s),
        no_newline(rep),
    ensures
        no_newline(replace_all(s, pat, rep)),
    decreases s.len(),
{
    if s.len() > 0 {
        if pat.len() > 0 && crate::text::occurs_at(s, pat, 0) {
            lemma_replace_all(s.skip(pat.len() as int), pat, rep);
        } else {
            lemma_replace_all(s.skip(1), pat, rep);
        }
    }
}

proof fn lemma_collapse_from(s: Seq<char>, started: bool, pending: bool)
    requires
        no_newline(s),
    ensures
        no_newline(collapse_from(s, started, pending)),
    decreases s.len(),
{
    if s.len() > 0 {
        lemma_collapse_from(s.skip(1), started, started);
        lemma_collapse_from(s.skip(1), true, false);
    }
}

proof fn lemma_drop_controls(s: Seq<char>)
    ensures
        no_newline(drop_controls(s)),
    decreases s.len(),
{
    if s.len() > 0 {
        lemma_drop_controls(s.skip(1));
    }
}

proof fn lemma_pad_specials(s: Seq<char>, p: SplitProfile)
    requires
        no_newline(s),
    ensures
        no_newline(pad_specials(s, p)),
    decreases s.len(),
{
    if s.len() > 0 {
        lemma_pad_specials(s.skip(1), p);
    }
}

proof fn lemma_pad_unless(s: Seq<char>, x: char)
    requires
        no_newline(s),
        x != '\n',
    ensures
        no_newline(pad_unless_lower_follows(s, x)),
    decreases s.len(),
{
    if s.len() > 0 {
        lemma_pad_unless(s.skip(1), x);
    }
}

proof fn lemma_mark_hyphens(s: Seq<char>)
    requires
        no_newline(s),
    ensures
        no_newline(mark_hyphens(s)),
    decreases s.len(),
{
    if s.len() >= 3 {
        lemma_mark_hyphens(s.skip(2));
        lemma_mark_hyphens(s.skip(1));
    }
}

proof fn lemma_tag_runs(s: Seq<char>)
    requires
        no_newline(s),
    ensures
        no_newline(tag_runs(s)),
    decreases s.len(),
{
    if s.len() >= 2 {
        let k = crate::multidot::leading_dots(s);
        if s[0] == '.' && s[1] == '.' && 0 < k <= s.len() {
            lemma_tag_runs(s.skip(k as int));
            assert(no_newline(tag()));
        } else {
            lemma_tag_runs(s.skip(1));
        }
    }
}

proof fn lemma_absorb_before_other(s: Seq<char>)
    requires
        no_newline(s),
    ensures
        no_newline(absorb_before_other(s)),
    decreases s.len(),
{
    if s.len() > 0 {
        if s.len() >= 10 {
            lemma_absorb_before_other(s.skip(10));
        }
        lemma_absorb_before_other(s.skip(1));
        assert(no_newline(tag_grown()));
    }
}

proof fn lemma_absorb_all(s: Seq<char>)
    requires
        no_newline(s),
    ensures
        no_newline(absorb_all(s)),
    decreases count_char(s, '.'),
{
    if contains_seq(s, tag_dot()) {
        lemma_absorb_before_other(s);
        assert(no_newline(tag_grown()));
        lemma_replace_all(absorb_before_other(s), tag_dot(), tag_grown());
        lemma_absorb_step_count(s);
        lemma_absorb_all(absorb_step(s));
    }
}

proof fn lemma_unwind(s: Seq<char>)
    requires
        no_newline(s),
    ensures
        no_newline(unwind(s)),
    decreases s.len(),
{
    if contains_seq(s, tag_grown()) {
        assert(no_newline(tag_dot()));
        lemma_replace_all(s, tag_grown(), tag_dot());
        lemma_replace_len(s, tag_grown(), tag_dot());
        lemma_unwind(replace_all(s, tag_grown(), tag_dot()));
    }
}

proof fn lemma_commas(s: Seq<char>)
    requires
        no_newline(s),
    ensures
        no_newline(comma_after_other(s)),
        no_newline(comma_before_other(s)),
        no_newline(comma_at_end(s)),
    decreases s.len(),
{
    if s.len() >= 2 {
        lemma_commas(s.skip(2));
        lemma_commas(s.skip(1));
    }
}

proof fn lemma_apostrophe_rule(s: Seq<char>, l: Side, r: Side, g: Gap)
    requires
        no_newline(s),
    ensures
        no_newline(apostrophe_rule(s, l, r, g)),
    decreases s.len(),
{
    if s.len() >= 3 {
        lemma_apostrophe_rule(s.skip(3), l, r, g);
        lemma_apostrophe_rule(s.skip(1), l, r, g);
        assert(no_newline(gapped(g, s[0], s[2])));
    }
}

proof fn lemma_words(s: Seq<char>)
    requires
        no_newline(s),
    ensures
        forall|j: int| 0 <= j < words(s).len() ==> no_newline(#[trigger] words(s)[j]),
    decreases s.len(),
{
    if s.len() > 0 {
        if crate::text::is_space(s[0]) {
            lemma_words(s.skip(1));
            assert(words(s) == words(s.skip(1)));
        } else {
            let k = word_len(s);
            if 0 < k <= s.len() {
                lemma_words(s.skip(k as int));
                let ws = words(s);
                assert(ws == seq![s.take(k as int)] + words(s.skip(k as int)));
                assert forall|j: int| 0 <= j < ws.len() implies no_newline(#[trigger] ws[j]) by {
                    if j > 0 {
                        assert(ws[j] == words(s.skip(k as int))[j - 1]);
                    } else {
                        assert(ws[0] == s.take(k as int));
                    }
                }
            }
        }
    }
}

proof fn lemma_join(ts: Seq<Seq<char>>)
    requires
        forall|j: int| 0 <= j < ts.len() ==> no_newline(#[trigger] ts[j]),
    ensures
        no_newline(join(ts)),
    decreases ts.len(),
{
    if ts.len() > 1 {
        lemma_join(ts.drop_last());
        assert(no_newline(ts.last()));
    } else if ts.len() == 1 {
        assert(no_newline(ts[0]));
    }
}

proof fn lemma_resolve(s: Seq<char>, dict: Map<Seq<char>, PrefixType>)
    requires
        no_newline(s),
    ensures
        no_newline(resolve_periods_spec(s, dict)),
{
    let ws = words(s);
    lemma_words(s);
    let rs = resolve_words(ws, dict);
    assert forall|j: int| 0 <= j < rs.len() implies no_newline(#[trigger] rs[j]) by {
        assert(no_newline(ws[j]));
        assert(rs[j] == resolve_word(ws, j, dict));
    }
    lemma_join(rs);
    let t = join(rs);
    let n = t.len() as int;
    assert(no_newline(split_final_quote(t))) by {
        if n >= 3 {
            assert(no_newline(t.take(n - 3)));
        }
        if n >= 2 {
            assert(no_newline(t.take(n - 2)));
        }
    }
}

proof fn lemma_restore_from(s: Seq<char>, subs: Seq<(Seq<char>, Seq<char>)>)
    requires
        no_newline(s),
        entries_without_newline(subs),
    ensures
        no_newline(restore_from(s, subs)),
    decreases subs.len(),
{
    if subs.len() > 0 {
        assert(no_newline(subs[subs.len() - 1].0) && no_newline(subs[subs.len() - 1].1));
        lemma_replace_all(s, subs.last().0, subs.last().1);
        let rest = subs.drop_last();
        assert forall|k: int| 0 <= k < rest.len() implies no_newline(#[trigger] rest[k].0) && no_newline(rest[k].1) by {
            assert(rest[k] == subs[k]);
        }
        lemma_restore_from(replace_all(s, subs.last().0, subs.last().1), rest);
    }
}

pub proof fn lemma_escape_no_newline(s: Seq<char>)
    requires
        no_newline(s),
    ensures
        no_newline(escape_spec(s)),
{
    lemma_escape(s);
}

proof fn lemma_escape(s: Seq<char>)
    requires
        no_newline(s),
    ensures
        no_newline(escape_spec(s)),
    decreases s.len(),
{
    if s.len() > 0 {
        lemma_escape(s.skip(1));
        assert(no_newline(entity(s[0])));
    }
}

proof fn lemma_fixed_digits(n: nat, w: nat)
    ensures
        no_newline(fixed_digits(n, w)),
    decreases w,
{
    if w > 0 {
        lemma_fixed_digits(n / 10, (w - 1) as nat);
        assert(digit_char(n % 10) != '\n');
    }
}

pub proof fn lemma_placeholder(n: nat)
    ensures
        no_newline(placeholder(n)),
{
    lemma_fixed_digits(n, crate::protect::PLACEHOLDER_DIGITS as nat);
    assert(no_newline(placeholder_prefix()));
}

proof fn lemma_protect_from(text: Seq<char>, spans: Seq<(usize, usize)>, k: int, pos: int, base: nat)
    requires
        no_newline(text),
        spans_ordered(spans, text.len() as int),
        0 <= k,
        0 <= pos <= text.len(),
        k < spans.len() ==> pos <= spans[k].0,
    ensures
        no_newline(protect_from(text, spans, k, pos, base)),
    decreases spans.len() - k,
{
    if !(k >= spans.len() || k < 0) {
        if k + 1 < spans.len() {
            assert(spans[k].1 <= spans[k + 1].0);
        }
        assert(spans[k].0 <= spans[k].1 <= text.len());
        lemma_protect_from(text, spans, k + 1, spans[k].1 as int, base);
        lemma_placeholder(base + k as nat);
    }
}

/// A protection pass on text without line feeds yields text and entries
/// without line feeds.
pub proof fn lemma_protection(text: Seq<char>, spans: Seq<(usize, usize)>, base: nat)
    requires
        no_newline(text),
        spans_ordered(spans, text.len() as int),
    ensures
        no_newline(protect_from(text, spans, 0, 0, base)),
        entries_without_newline(protected_entries(text, spans, base)),
{
    lemma_protect_from(text, spans, 0, 0, base);
    let es = protected_entries(text, spans, base);
    assert forall|k: int| 0 <= k < es.len() implies no_newline(#[trigger] es[k].0) && no_newline(es[k].1) by {
        lemma_placeholder(base + k as nat);
        assert(spans[k].0 <= spans[k].1 <= text.len());
        assert(es[k].1 == text.subrange(spans[k].0 as int, spans[k].1 as int));
    }
}

pub proof fn lemma_entries_concat(a: Seq<(Seq<char>, Seq<char>)>, b: Seq<(Seq<char>, Seq<char>)>)
    requires
        entries_without_newline(a),
        entries_without_newline(b),
    ensures
        entries_without_newline(a + b),
{
    let c = a + b;
    assert forall|k: int| 0 <= k < c.len() implies no_newline(#[trigger] c[k].0) && no_newline(c[k].1) by {
        if k < a.len() {
            assert(c[k] == a[k]);
            assert(no_newline(a[k].0) && no_newline(a[k].1));
        } else {
            assert(c[k] == b[k - a.len()]);
            assert(no_newline(b[k - a.len()].0) && no_newline(b[k - a.len()].1));
        }
    }
}

/// A normalized line holds no line feed.
pub proof fn lemma_normalized(s: Seq<char>)
    ensures
        no_newline(normalize_spec(s)),
{
    lemma_drop_controls(seq![' '] + collapse(s) + seq![' ']);
}

proof fn lemma_split_tokens(
    s: Seq<char>,
    language: Language,
    aggressive: bool,
    prefixes: Map<Seq<char>, PrefixType>,
)
    requires
        no_newline(s),
    ensures
        no_newline(split_tokens_spec(s, language, aggressive, prefixes)),
{
    let p = crate::language::split_profile_of(language);
    lemma_collapse_from(s, false, false);
    let c = collapse(s);
    lemma_pad_specials(c, p);
    let t = pad_specials(c, p);
    lemma_pad_unless(t, ':');
    lemma_pad_unless(t, '\'');
    lemma_pad_unless(t, '\u{b7}');
    let a = split_characters_spec(c, p);
    lemma_mark_hyphens(a);
    let b = if aggressive { mark_hyphens(a) } else { a };
    lemma_tag_runs(b);
    lemma_absorb_all(tag_runs(b));
    let h = hide_dots_spec(b);
    lemma_commas(h);
    lemma_commas(comma_after_other(h));
    lemma_commas(comma_before_other(comma_after_other(h)));
    let e = separate_commas_spec(h);
    lemma_apostrophe_rule(e, Side::NotLetter, Side::NotLetter, Gap::Around);
    let o1 = apostrophe_rule(e, Side::NotLetter, Side::NotLetter, Gap::Around);
    lemma_apostrophe_rule(o1, Side::NotLetterOrNumber, Side::Letter, Gap::Around);
    lemma_apostrophe_rule(o1, Side::NotLetter, Side::Letter, Gap::Around);
    let o2r = apostrophe_rule(o1, Side::NotLetterOrNumber, Side::Letter, Gap::Around);
    let o2l = apostrophe_rule(o1, Side::NotLetter, Side::Letter, Gap::Around);
    lemma_apostrophe_rule(o2r, Side::Letter, Side::NotLetter, Gap::Around);
    lemma_apostrophe_rule(o2l, Side::Letter, Side::NotLetter, Gap::Around);
    let right = apostrophe_outer(e, Side::NotLetterOrNumber);
    let left = apostrophe_outer(e, Side::NotLetter);
    lemma_apostrophe_rule(right, Side::Letter, Side::Letter, Gap::Before);
    lemma_apostrophe_rule(
        apostrophe_rule(right, Side::Letter, Side::Letter, Gap::Before),
        Side::Number,
        Side::LowerS,
        Gap::Before,
    );
    lemma_apostrophe_rule(left, Side::Letter, Side::Letter, Gap::After);
    assert(no_newline(seq![' ', '\'', ' ']));
    lemma_replace_all(e, seq!['\''], seq![' ', '\'', ' ']);
    let f = split_contractions_spec(e, crate::language::contraction_style_of(language));
    lemma_resolve(f, prefixes);
}

/// The tokenized line before escaping holds no line feed.
pub proof fn lemma_core_no_newline(
    s: Seq<char>,
    subs: Seq<(Seq<char>, Seq<char>)>,
    language: Language,
    aggressive: bool,
    prefixes: Map<Seq<char>, PrefixType>,
)
    requires
        no_newline(s),
        entries_without_newline(subs),
        s.len() <= usize::MAX,
    ensures
        no_newline(line_core(s, subs, language, aggressive, prefixes)),
{
    let spans = literal_spans(s, tag(), 0);
    lemma_literal_spans_ordered(s, tag(), 0);
    lemma_protection(s, spans, subs.len());
    let hidden = protect_from(s, spans, 0, 0, subs.len());
    let es = protected_entries(s, spans, subs.len());
    lemma_entries_concat(subs, es);
    lemma_split_tokens(hidden, language, aggressive, prefixes);
    let t = split_tokens_spec(hidden, language, aggressive, prefixes);
    lemma_unwind(t);
    assert(no_newline(seq!['.']));
    lemma_replace_all(unwind(t), tag(), seq!['.']);
    lemma_restore_from(restore_dots_spec(t), subs + es);
}

/// A tokenized line holds exactly one line feed, its last character, when
/// the protected text and every recorded entry hold none.
pub proof fn line_ends_with_one_line_feed(
    s: Seq<char>,
    subs: Seq<(Seq<char>, Seq<char>)>,
    language: Language,
    no_escaping: bool,
    aggressive: bool,
    prefixes: Map<Seq<char>, PrefixType>,
)
    requires
        no_newline(s),
        entries_without_newline(subs),
        s.len() <= usize::MAX,
    ensures
        ({
            let r = finish_line_spec(s, subs, language, no_escaping, aggressive, prefixes);
            r.len() >= 1 && r.last() == '\n' && no_newline(r.drop_last())
        }),
{
    lemma_core_no_newline(s, subs, language, aggressive, prefixes);
    let u = line_core(s, subs, language, aggressive, prefixes);
    lemma_escape(u);
    let x = if no_escaping { u } else { escape_spec(u) };
    assert(with_newline(x) == x.push('\n'));
    assert(x.push('\n').drop_last() =~= x);
}

} // verus!
