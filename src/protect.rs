//! Protected patterns: text that caller-supplied regular expressions match is
//! set aside behind numbered placeholders and put back at the end.

use vstd::prelude::*;
use crate::text::{occurs_at, occurs_at_exec, replace_all, replace_all_exec};
use crate::newline::{entries_without_newline, lemma_entries_concat, lemma_protection, no_newline};
use regex::Regex;

verus! {

#[verifier::external_type_specification]
#[verifier::external_body]
pub struct ExRegex(regex::Regex);

#[verifier::external_type_specification]
#[verifier::external_body]
pub struct ExRegexError(regex::Error);

/// A protected pattern that is not a valid regular expression.
#[derive(Debug, PartialEq, Eq, Structural, Clone, Copy)]
pub enum PatternError {
    InvalidPattern,
}

/// Whether `regex::Regex::new` accepts the pattern.
pub uninterp spec fn regex_valid(pattern: Seq<char>) -> bool;

/// The spans of the successive matches of the pattern in the text, as
/// `regex::Regex::find_iter` yields them, in character positions.
pub uninterp spec fn regex_spans(pattern: Seq<char>, text: Seq<char>) -> Seq<(usize, usize)>;

/// A compiled protected pattern together with the text it was compiled from.
pub struct ProtectedPattern {
    source: String,
    re: Regex,
}

impl View for ProtectedPattern {
    type V = Seq<char>;

    closed spec fn view(&self) -> Seq<char> {
        self.source@
    }
}

/// Relies on `regex::Regex::new`: it accepts a pattern or reports why not.
#[verifier::external_body]
fn compile_regex(pattern: &str) -> (r: Result<ProtectedPattern, regex::Error>)
    ensures
        r.is_ok() == regex_valid(pattern@),
        r.is_ok() ==> r.unwrap()@ == pattern@,
{
    Regex::new(pattern).map(|re| ProtectedPattern { source: pattern.to_string(), re })
}

impl ProtectedPattern {
    /// Compiles a pattern; fails if it is not a valid regular expression.
    pub fn new(pattern: &str) -> (r: Result<ProtectedPattern, PatternError>)
        ensures
            r.is_ok() == regex_valid(pattern@),
            r.is_ok() ==> r.unwrap()@ == pattern@,
    {
        match compile_regex(pattern) {
            Ok(p) => Ok(p),
            Err(_) => Err(PatternError::InvalidPattern),
        }
    }
}

pub open spec fn str_views(v: Seq<&str>) -> Seq<Seq<char>> {
    v.map_values(|p: &str| p@)
}

pub open spec fn pattern_views(v: Seq<ProtectedPattern>) -> Seq<Seq<char>> {
    v.map_values(|p: ProtectedPattern| p@)
}

pub open spec fn all_valid(ps: Seq<Seq<char>>) -> bool {
    forall|i: int| 0 <= i < ps.len() ==> regex_valid(#[trigger] ps[i])
}

/// Compiles the patterns in order; fails if any of them is invalid.
pub fn compile_patterns(patterns: &[&str]) -> (r: Result<Vec<ProtectedPattern>, PatternError>)
    ensures
        r.is_ok() == all_valid(str_views(patterns@)),
        r.is_ok() ==> pattern_views(r.unwrap()@) == str_views(patterns@),
{
    let mut out: Vec<ProtectedPattern> = Vec::new();
    let mut i: usize = 0;
    while i < patterns.len()
        invariant
            i <= patterns@.len(),
            pattern_views(out@) == str_views(patterns@).take(i as int),
            all_valid(str_views(patterns@).take(i as int)),
        decreases patterns@.len() - i,
    {
        let ghost before = out@;
        match compile_regex(patterns[i]) {
            Ok(p) => out.push(p),
            Err(_) => {
                assert(!regex_valid(str_views(patterns@)[i as int]));
                return Err(PatternError::InvalidPattern);
            },
        }
        assert(pattern_views(out@) =~= pattern_views(before).push(patterns@[i as int]@));
        assert(str_views(patterns@).take(i + 1) =~= str_views(patterns@).take(i as int).push(
            patterns@[i as int]@,
        ));
        i += 1;
        assert(all_valid(str_views(patterns@).take(i as int))) by {
            let t = str_views(patterns@).take(i as int);
            assert forall|j: int| 0 <= j < t.len() implies regex_valid(#[trigger] t[j]) by {
                if j < i - 1 {
                    assert(t[j] == str_views(patterns@).take(i - 1)[j]);
                }
            }
        }
    }
    assert(str_views(patterns@).take(i as int) =~= str_views(patterns@));
    Ok(out)
}

/// Spans of characters, each `(start, end)` with `start <= end`, in order and
/// without overlap, inside a text of length `n`.
pub open spec fn spans_ordered(spans: Seq<(usize, usize)>, n: int) -> bool {
    &&& forall|k: int| 0 <= k < spans.len() ==> #[trigger] spans[k].0 <= spans[k].1 <= n
    &&& forall|k: int| 0 <= k < spans.len() - 1 ==> #[trigger] spans[k].1 <= spans[k + 1].0
}

/// Relies on `regex::Regex::find_iter`: successive matches without overlap,
/// each with its start no later than its end; the byte offsets are turned
/// into character positions.
#[verifier::external_body]
fn match_spans(p: &ProtectedPattern, text: &Vec<char>) -> (r: Vec<(usize, usize)>)
    ensures
        r@ == regex_spans(p@, text@),
        spans_ordered(r@, text@.len() as int),
{
    let s: String = text.iter().collect();
    p.re.find_iter(&s).map(|m| (s[..m.start()].chars().count(), s[..m.end()].chars().count())).collect()
}

pub open spec fn digit_char(d: nat) -> char {
    if d == 0 { '0' }
    else if d == 1 { '1' }
    else if d == 2 { '2' }
    else if d == 3 { '3' }
    else if d == 4 { '4' }
    else if d == 5 { '5' }
    else if d == 6 { '6' }
    else if d == 7 { '7' }
    else if d == 8 { '8' }
    else { '9' }
}

/// The last `w` decimal digits of `n`, with leading zeros.
pub open spec fn fixed_digits(n: nat, w: nat) -> Seq<char>
    decreases w,
{
    if w == 0 {
        Seq::empty()
    } else {
        fixed_digits(n / 10, (w - 1) as nat) + seq![digit_char(n % 10)]
    }
}

/// The number of digits every placeholder carries: enough for any `usize`,
/// so that no placeholder is the start of another.
pub const PLACEHOLDER_DIGITS: usize = 20;

pub open spec fn placeholder_prefix() -> Seq<char> {
    seq!['T', 'H', 'I', 'S', 'I', 'S', 'P', 'R', 'O', 'T', 'E', 'C', 'T', 'E', 'D']
}

/// The placeholder of the `n`-th protected match: a fixed prefix and `n` in
/// twenty digits.
pub open spec fn placeholder(n: nat) -> Seq<char> {
    placeholder_prefix() + fixed_digits(n, PLACEHOLDER_DIGITS as nat)
}

fn digit_of(d: usize) -> (c: char)
    requires
        d < 10,
    ensures
        c == digit_char(d as nat),
{
    if d == 0 { '0' }
    else if d == 1 { '1' }
    else if d == 2 { '2' }
    else if d == 3 { '3' }
    else if d == 4 { '4' }
    else if d == 5 { '5' }
    else if d == 6 { '6' }
    else if d == 7 { '7' }
    else if d == 8 { '8' }
    else { '9' }
}

fn push_fixed_digits(out: &mut Vec<char>, n: usize, w: usize)
    ensures
        final(out)@ == old(out)@ + fixed_digits(n as nat, w as nat),
    decreases w,
{
    if w > 0 {
        push_fixed_digits(out, n / 10, w - 1);
        out.push(digit_of(n % 10));
    }
}

pub fn placeholder_exec(n: usize) -> (r: Vec<char>)
    ensures
        r@ == placeholder(n as nat),
{
    let mut r = vec!['T', 'H', 'I', 'S', 'I', 'S', 'P', 'R', 'O', 'T', 'E', 'C', 'T', 'E', 'D'];
    assert(r@ =~= placeholder_prefix());
    push_fixed_digits(&mut r, n, PLACEHOLDER_DIGITS);
    r
}

/// The text from position `pos`, with the spans from index `k` on replaced by
/// the placeholders numbered from `base + k`.
pub open spec fn protect_from(
    text: Seq<char>,
    spans: Seq<(usize, usize)>,
    k: int,
    pos: int,
    base: nat,
) -> Seq<char>
    decreases spans.len() - k,
{
    if k >= spans.len() || k < 0 {
        text.subrange(pos, text.len() as int)
    } else {
        text.subrange(pos, spans[k].0 as int) + placeholder(base + k as nat) + protect_from(
            text,
            spans,
            k + 1,
            spans[k].1 as int,
            base,
        )
    }
}

/// The entries a protection pass records: each placeholder with the text
/// it stands for.
pub open spec fn protected_entries(
    text: Seq<char>,
    spans: Seq<(usize, usize)>,
    base: nat,
) -> Seq<(Seq<char>, Seq<char>)> {
    Seq::new(
        spans.len(),
        |k: int| (placeholder(base + k as nat), text.subrange(spans[k].0 as int, spans[k].1 as int)),
    )
}

pub open spec fn entry_views(v: Seq<(Vec<char>, Vec<char>)>) -> Seq<(Seq<char>, Seq<char>)> {
    v.map_values(|e: (Vec<char>, Vec<char>)| (e.0@, e.1@))
}

fn copy_range(out: &mut Vec<char>, text: &Vec<char>, from: usize, to: usize)
    requires
        from <= to <= text@.len(),
    ensures
        final(out)@ == old(out)@ + text@.subrange(from as int, to as int),
{
    let mut i = from;
    while i < to
        invariant
            from <= i <= to <= text@.len(),
            out@ == old(out)@ + text@.subrange(from as int, i as int),
        decreases to - i,
    {
        out.push(text[i]);
        i += 1;
        assert(text@.subrange(from as int, i as int) =~= text@.subrange(from as int, i - 1)
            + seq![text@[i - 1]]);
    }
}

/// Replaces each span of `text` by a fresh placeholder, numbered on from the
/// entries already in `subs`, and records each placeholder with the text it
/// replaced.
pub fn protect_spans(
    text: &Vec<char>,
    spans: &Vec<(usize, usize)>,
    subs: &mut Vec<(Vec<char>, Vec<char>)>,
) -> (r: Vec<char>)
    requires
        spans_ordered(spans@, text@.len() as int),
    ensures
        r@ == protect_from(text@, spans@, 0, 0, old(subs)@.len()),
        entry_views(final(subs)@) == entry_views(old(subs)@) + protected_entries(
            text@,
            spans@,
            old(subs)@.len(),
        ),
{
    let ghost base = old(subs)@.len();
    let mut out: Vec<char> = Vec::new();
    let mut pos: usize = 0;
    let mut k: usize = 0;
    assert(entry_views(subs@) + protected_entries(text@, spans@, base).take(0) =~= entry_views(
        old(subs)@,
    ));
    while k < spans.len()
        invariant
            spans_ordered(spans@, text@.len() as int),
            k <= spans@.len(),
            subs@.len() == base + k,
            pos <= text@.len(),
            k > 0 ==> pos == spans@[k - 1].1,
            k == 0 ==> pos == 0,
            protect_from(text@, spans@, 0, 0, base) == out@ + protect_from(
                text@,
                spans@,
                k as int,
                pos as int,
                base,
            ),
            entry_views(subs@) == entry_views(old(subs)@) + protected_entries(
                text@,
                spans@,
                base,
            ).take(k as int),
        decreases spans@.len() - k,
    {
        let (start, end) = spans[k];
        assert(pos <= start) by {
            if k > 0 {
                assert(spans@[k - 1].1 <= spans@[k as int].0);
            }
        }
        let ghost before = out@;
        copy_range(&mut out, text, pos, start);
        let ph = placeholder_exec(subs.len());
        crate::text::push_all(&mut out, &ph);
        let mut orig: Vec<char> = Vec::new();
        copy_range(&mut orig, text, start, end);
        assert(orig@ =~= text@.subrange(start as int, end as int));
        let ghost old_subs = subs@;
        subs.push((ph, orig));
        assert(entry_views(subs@) =~= entry_views(old_subs) + seq![(ph@, orig@)]);
        assert(protected_entries(text@, spans@, base).take(k + 1) =~= protected_entries(
            text@,
            spans@,
            base,
        ).take(k as int) + seq![(ph@, orig@)]);
        assert(out@ + protect_from(text@, spans@, k + 1, end as int, base) =~= before
            + protect_from(text@, spans@, k as int, pos as int, base));
        pos = end;
        k += 1;
    }
    assert(protected_entries(text@, spans@, base).take(k as int) =~= protected_entries(
        text@,
        spans@,
        base,
    ));
    copy_range(&mut out, text, pos, text.len());
    assert(out@ =~= out@ + Seq::<char>::empty());
    out
}

/// The text and the entries after protecting `t0` with each pattern of
/// `sources` in turn, each matched against the text the earlier ones left.
pub open spec fn protect_named(t0: Seq<char>, sources: Seq<Seq<char>>, base: nat) -> (Seq<char>, Seq<(Seq<char>, Seq<char>)>)
    decreases sources.len(),
{
    if sources.len() == 0 {
        (t0, Seq::empty())
    } else {
        let prev = protect_named(t0, sources.drop_last(), base);
        let b = base + prev.1.len();
        let spans = regex_spans(sources.last(), prev.0);
        (protect_from(prev.0, spans, 0, 0, b), prev.1 + protected_entries(prev.0, spans, b))
    }
}

/// Replaces every match of each pattern in turn by a placeholder, each
/// pattern applied to the text as the earlier ones left it, and records the
/// placeholders after the entries already in `subs`.
pub fn protect_patterns(
    text: &Vec<char>,
    patterns: &Vec<ProtectedPattern>,
    subs: &mut Vec<(Vec<char>, Vec<char>)>,
) -> (r: Vec<char>)
    ensures
        final(subs)@.len() >= old(subs)@.len(),
        entry_views(final(subs)@).take(old(subs)@.len() as int) == entry_views(old(subs)@),
        (r@, entry_views(final(subs)@).skip(old(subs)@.len() as int)) == protect_named(
            text@,
            pattern_views(patterns@),
            old(subs)@.len() as nat,
        ),
        no_newline(text@) && entries_without_newline(entry_views(old(subs)@)) ==> no_newline(r@)
            && entries_without_newline(entry_views(final(subs)@)),
{
    let ghost base = old(subs)@.len() as nat;
    let ghost srcs = pattern_views(patterns@);
    let mut t = text.clone();
    let mut i: usize = 0;
    assert(entry_views(subs@).skip(base as int) =~= Seq::empty());
    assert(entry_views(subs@).take(base as int) =~= entry_views(old(subs)@));
    assert(srcs.take(0) =~= Seq::<Seq<char>>::empty());
    while i < patterns.len()
        invariant
            i <= patterns@.len(),
            srcs == pattern_views(patterns@),
            subs@.len() >= base,
            base == old(subs)@.len(),
            protect_named(text@, srcs.take(i as int), base) == (t@, entry_views(subs@).skip(base as int)),
            entry_views(subs@).take(base as int) == entry_views(old(subs)@),
            no_newline(text@) && entries_without_newline(entry_views(old(subs)@)) ==> no_newline(t@)
                && entries_without_newline(entry_views(subs@)),
        decreases patterns@.len() - i,
    {
        let spans = match_spans(&patterns[i], &t);
        let ghost before = t@;
        let ghost old_subs = entry_views(subs@);
        t = protect_spans(&t, &spans, subs);
        proof {
            let es = protected_entries(before, spans@, old_subs.len());
            let all = entry_views(subs@);
            let next = srcs.take(i + 1);
            assert(next.drop_last() =~= srcs.take(i as int));
            assert(srcs[i as int] == patterns@[i as int]@);
            assert(next.last() == patterns@[i as int]@);
            let prev = protect_named(text@, srcs.take(i as int), base);
            assert(prev.0 == before);
            assert(prev.1 == old_subs.skip(base as int));
            assert(base + prev.1.len() == old_subs.len());
            assert(regex_spans(next.last(), prev.0) == spans@);
            assert(protect_named(text@, next, base) == (protect_from(before, spans@, 0, 0, old_subs.len() as nat), prev.1 + es));
            assert(t@ == protect_from(before, spans@, 0, 0, old_subs.len() as nat));
            assert(all.skip(base as int) == prev.1 + es);
            assert(all.skip(base as int) =~= old_subs.skip(base as int) + es);
            assert(all.take(base as int) =~= old_subs.take(base as int));
            assert(base + old_subs.skip(base as int).len() == old_subs.len());
            if no_newline(before) && entries_without_newline(old_subs) {
                lemma_protection(before, spans@, old_subs.len());
                assert(all =~= old_subs + es);
                lemma_entries_concat(old_subs, es);
                assert(no_newline(t@));
            }
        }
        i += 1;
    }
    assert(srcs.take(i as int) =~= srcs);
    t
}

/// The occurrences of `pat` in `s` from position `from` on, left to right
/// and without overlap, as spans.
pub open spec fn literal_spans(s: Seq<char>, pat: Seq<char>, from: nat) -> Seq<(usize, usize)>
    decreases s.len() - from,
{
    if pat.len() == 0 || from >= s.len() {
        Seq::empty()
    } else if occurs_at(s, pat, from as int) {
        seq![(from as usize, (from + pat.len()) as usize)] + literal_spans(s, pat, from + pat.len())
    } else {
        literal_spans(s, pat, from + 1)
    }
}

pub proof fn lemma_literal_spans_ordered(s: Seq<char>, pat: Seq<char>, from: nat)
    requires
        s.len() <= usize::MAX,
    ensures
        spans_ordered(literal_spans(s, pat, from), s.len() as int),
        forall|k: int|
            0 <= k < literal_spans(s, pat, from).len() ==> from <= #[trigger] literal_spans(s, pat, from)[k].0,
    decreases s.len() - from,
{
    if pat.len() == 0 || from >= s.len() {
    } else if occurs_at(s, pat, from as int) {
        lemma_literal_spans_ordered(s, pat, from + pat.len());
        let rest = literal_spans(s, pat, from + pat.len());
        let all = literal_spans(s, pat, from);
        assert(all == seq![(from as usize, (from + pat.len()) as usize)] + rest);
        assert forall|k: int| 0 <= k < all.len() - 1 implies #[trigger] all[k].1 <= all[k + 1].0 by {
            if k > 0 {
                assert(all[k] == rest[k - 1]);
            }
            assert(all[k + 1] == rest[k]);
        }
        assert forall|k: int| 0 <= k < all.len() implies #[trigger] all[k].0 <= all[k].1 <= s.len() by {
            if k > 0 {
                assert(all[k] == rest[k - 1]);
            }
        }
    } else {
        lemma_literal_spans_ordered(s, pat, from + 1);
    }
}

/// The occurrences of `pat` in `s`, left to right and without overlap.
pub fn find_literal(s: &Vec<char>, pat: &Vec<char>) -> (r: Vec<(usize, usize)>)
    ensures
        r@ == literal_spans(s@, pat@, 0),
{
    let n = s.len();
    let mut out: Vec<(usize, usize)> = Vec::new();
    if pat.len() == 0 {
        return out;
    }
    let mut i: usize = 0;
    while i < n
        invariant
            n == s@.len(),
            pat@.len() > 0,
            literal_spans(s@, pat@, 0) == out@ + literal_spans(s@, pat@, i as nat),
        decreases n - i,
    {
        if pat.len() <= n - i && occurs_at_exec(s, pat, i) {
            let ghost before = out@;
            out.push((i, i + pat.len()));
            assert(before + literal_spans(s@, pat@, i as nat) =~= out@ + literal_spans(
                s@,
                pat@,
                (i + pat@.len()) as nat,
            ));
            i = i + pat.len();
        } else {
            i += 1;
        }
    }
    assert(out@ + Seq::<(usize, usize)>::empty() =~= out@);
    out
}

/// A copy of the entries.
pub fn copy_entries(v: &Vec<(Vec<char>, Vec<char>)>) -> (r: Vec<(Vec<char>, Vec<char>)>)
    ensures
        entry_views(r@) == entry_views(v@),
{
    let mut out: Vec<(Vec<char>, Vec<char>)> = Vec::new();
    let mut i: usize = 0;
    while i < v.len()
        invariant
            i <= v@.len(),
            entry_views(out@) == entry_views(v@).take(i as int),
        decreases v@.len() - i,
    {
        let a = v[i].0.clone();
        let b = v[i].1.clone();
        assert(a@ == v@[i as int].0@);
        assert(b@ == v@[i as int].1@);
        let ghost before = out@;
        out.push((a, b));
        assert(entry_views(out@) =~= entry_views(before).push((a@, b@)));
        assert(entry_views(v@).take(i + 1) =~= entry_views(v@).take(i as int).push((a@, b@)));
        i += 1;
    }
    assert(entry_views(v@).take(i as int) =~= entry_views(v@));
    out
}

/// The text with each placeholder put back, the latest first, so that a match
/// that took in an earlier placeholder is restored before it.
pub open spec fn restore_from(s: Seq<char>, subs: Seq<(Seq<char>, Seq<char>)>) -> Seq<char>
    decreases subs.len(),
{
    if subs.len() == 0 {
        s
    } else {
        restore_from(replace_all(s, subs.last().0, subs.last().1), subs.drop_last())
    }
}

/// Puts the protected text back in place of its placeholders.
pub fn restore_protected(s: &Vec<char>, subs: &Vec<(Vec<char>, Vec<char>)>) -> (r: Vec<char>)
    ensures
        r@ == restore_from(s@, entry_views(subs@)),
{
    let mut t = s.clone();
    let mut i = subs.len();
    assert(entry_views(subs@).take(i as int) =~= entry_views(subs@));
    while i > 0
        invariant
            i <= subs@.len(),
            restore_from(t@, entry_views(subs@).take(i as int)) == restore_from(s@, entry_views(subs@)),
        decreases i,
    {
        let ghost es = entry_views(subs@).take(i as int);
        assert(es.drop_last() =~= entry_views(subs@).take(i - 1));
        t = replace_all_exec(&t, &subs[i - 1].0, &subs[i - 1].1);
        i -= 1;
    }
    t
}

} // verus!
