//! Hiding a run of periods behind the tag and restoring it gives back the
//! same number of periods, set off by spaces from the text around it.

use vstd::prelude::*;
use crate::multidot::{
    absorb_all, absorb_before_other, absorb_step, hide_dots_spec, leading_dots, restore_dots_spec, tag,
    tag_dot, tag_grown, tag_runs, unwind,
};
use crate::text::{ascii_letter, contains_seq, is_space, occurs_at, replace_all};
use crate::abbrev::{PrefixType, join, resolve_periods_spec, resolve_words, words};
use crate::escape::escape_spec;
use crate::language::{Language, SplitProfile, contraction_style_of, split_profile_of};
use crate::moses::{tokenize_line_spec, with_newline};
use crate::normalize::{collapse, collapse_from, drop_controls, normalize_spec};
use crate::passes::{
    Gap, Side, apostrophe_rule, comma_after_other, comma_at_end, comma_before_other, mark_hyphens,
    pad_specials, pad_unless_lower_follows, separate_commas_spec, split_characters_spec,
    split_contractions_spec,
};
use crate::protect::{literal_spans, protect_from, protect_named, protected_entries, restore_from};

verus! {

/// `n` periods.
pub open spec fn dots(n: nat) -> Seq<char> {
    Seq::new(n, |i: int| '.')
}

/// The tag with `k` leading `DOT`s: `MULTI`, `DOTMULTI`, `DOTDOTMULTI`, ...
pub open spec fn grown(k: nat) -> Seq<char>
    decreases k,
{
    if k == 0 {
        seq!['M', 'U', 'L', 'T', 'I']
    } else {
        seq!['D', 'O', 'T'] + grown((k - 1) as nat)
    }
}

pub open spec fn free_of(s: Seq<char>, c: char) -> bool {
    forall|j: int| 0 <= j < s.len() ==> #[trigger] s[j] != c
}

/// Characters that can stand in a window the absorbing step looks at.
pub open spec fn tag_char(c: char) -> bool {
    c == 'D' || c == 'O' || c == 'T' || c == 'M' || c == 'U' || c == 'L' || c == 'I' || c == '.'
}

proof fn lemma_grown(k: nat)
    ensures
        grown(k).len() == 3 * k + 5,
        free_of(grown(k), '.'),
        k >= 1 ==> grown(k)[0] == 'D',
        k >= 2 ==> grown(k)[3] == 'D',
        grown(1) == tag(),
        grown(2) == tag_grown(),
    decreases k,
{
    if k > 0 {
        lemma_grown((k - 1) as nat);
    }
    reveal_with_fuel(grown, 3);
    assert(grown(1) =~= tag());
    assert(grown(2) =~= tag_grown());
}

proof fn lemma_absorb_split(x: Seq<char>, y: Seq<char>)
    requires
        x.len() > 0,
        !tag_char(x.last()),
    ensures
        absorb_before_other(x + y) == absorb_before_other(x) + absorb_before_other(y),
    decreases x.len(),
{
    let s = x + y;
    let n = x.len() as int;
    if s.len() >= 10 && occurs_at(s, tag_dot(), 0) && s[9] != '.' {
        if n <= 9 {
            assert(s.subrange(0, 9)[n - 1] == tag_dot()[n - 1]);
            assert(s[n - 1] == x.last());
        }
        assert(x.subrange(0, 9) =~= s.subrange(0, 9));
        assert(s.skip(10) =~= x.skip(10) + y);
        if n == 10 {
            assert(x.skip(10) =~= Seq::<char>::empty());
            assert(absorb_before_other(x.skip(10)) == x.skip(10));
            assert(x.skip(10) + y =~= y);
        } else {
            lemma_absorb_split(x.skip(10), y);
        }
        assert((tag_grown() + seq![' ', s[9]]) + (absorb_before_other(x.skip(10)) + absorb_before_other(y))
            =~= (tag_grown() + seq![' ', x[9]] + absorb_before_other(x.skip(10))) + absorb_before_other(y));
    } else {
        assert(!(x.len() >= 10 && occurs_at(x, tag_dot(), 0) && x[9] != '.')) by {
            if x.len() >= 10 && occurs_at(x, tag_dot(), 0) {
                assert(x.subrange(0, 9) =~= s.subrange(0, 9));
            }
        }
        assert(s.skip(1) =~= x.skip(1) + y);
        if n == 1 {
            assert(x.skip(1) =~= Seq::<char>::empty());
            assert(x.skip(1) + y =~= y);
            assert(absorb_before_other(x.skip(1)) == x.skip(1));
        } else {
            lemma_absorb_split(x.skip(1), y);
        }
        assert(seq![s[0]] + (absorb_before_other(x.skip(1)) + absorb_before_other(y)) =~= (seq![x[0]]
            + absorb_before_other(x.skip(1))) + absorb_before_other(y));
    }
}

proof fn lemma_replace_free_prefix(x: Seq<char>, y: Seq<char>, pat: Seq<char>, rep: Seq<char>)
    requires
        pat.len() > 0,
        free_of(x, pat[0]),
    ensures
        replace_all(x + y, pat, rep) == x + replace_all(y, pat, rep),
    decreases x.len(),
{
    if x.len() == 0 {
        assert(x + y =~= y);
        assert(x + replace_all(y, pat, rep) =~= replace_all(y, pat, rep));
    } else {
        let s = x + y;
        assert(!occurs_at(s, pat, 0)) by {
            if occurs_at(s, pat, 0) {
                assert(s.subrange(0, pat.len() as int)[0] == pat[0]);
            }
        }
        assert(s.skip(1) =~= x.skip(1) + y);
        lemma_replace_free_prefix(x.skip(1), y, pat, rep);
        assert(seq![s[0]] + (x.skip(1) + replace_all(y, pat, rep)) =~= x + replace_all(y, pat, rep));
    }
}

proof fn lemma_replace_split(x: Seq<char>, y: Seq<char>, pat: Seq<char>, rep: Seq<char>)
    requires
        pat.len() > 0,
        x.len() > 0,
        forall|j: int| 0 <= j < pat.len() ==> pat[j] != x.last(),
    ensures
        replace_all(x + y, pat, rep) == replace_all(x, pat, rep) + replace_all(y, pat, rep),
    decreases x.len(),
{
    let s = x + y;
    let n = x.len() as int;
    if occurs_at(s, pat, 0) {
        if n <= pat.len() {
            assert(s.subrange(0, pat.len() as int)[n - 1] == pat[n - 1]);
            assert(s[n - 1] == x.last());
        }
        assert(x.subrange(0, pat.len() as int) =~= s.subrange(0, pat.len() as int));
        lemma_replace_split(x.skip(pat.len() as int), y, pat, rep);
        assert(s.skip(pat.len() as int) =~= x.skip(pat.len() as int) + y);
        assert(rep + (replace_all(x.skip(pat.len() as int), pat, rep) + replace_all(y, pat, rep)) =~= (rep
            + replace_all(x.skip(pat.len() as int), pat, rep)) + replace_all(y, pat, rep));
    } else {
        assert(!occurs_at(x, pat, 0)) by {
            if occurs_at(x, pat, 0) {
                assert(x.subrange(0, pat.len() as int) =~= s.subrange(0, pat.len() as int));
            }
        }
        assert(s.skip(1) =~= x.skip(1) + y);
        if n == 1 {
            assert(x.skip(1) + y =~= y);
            assert(replace_all(x.skip(1), pat, rep) == x.skip(1));
            assert(x.skip(1) =~= Seq::<char>::empty());
        } else {
            lemma_replace_split(x.skip(1), y, pat, rep);
        }
        assert(seq![s[0]] + (replace_all(x.skip(1), pat, rep) + replace_all(y, pat, rep)) =~= (seq![x[0]]
            + replace_all(x.skip(1), pat, rep)) + replace_all(y, pat, rep));
    }
}

proof fn lemma_tag_runs_prefix(x: Seq<char>, y: Seq<char>)
    requires
        free_of(x, '.'),
    ensures
        tag_runs(x + y) == x + tag_runs(y),
    decreases x.len(),
{
    if x.len() == 0 {
        assert(x + y =~= y);
        assert(x + tag_runs(y) =~= tag_runs(y));
    } else {
        let s = x + y;
        if s.len() < 2 {
            assert(y.len() == 0);
            assert(tag_runs(y) == y);
            assert(s =~= x + y);
        } else {
            assert(s.skip(1) =~= x.skip(1) + y);
            lemma_tag_runs_prefix(x.skip(1), y);
            assert(seq![s[0]] + (x.skip(1) + tag_runs(y)) =~= x + tag_runs(y));
        }
    }
}

proof fn lemma_no_dot_no_tag(s: Seq<char>)
    requires
        free_of(s, '.'),
    ensures
        !contains_seq(s, tag_dot()),
{
    if contains_seq(s, tag_dot()) {
        let p = choose|p: int| occurs_at(s, tag_dot(), p);
        assert(s.subrange(p, p + 9)[8] == '.');
    }
}

proof fn lemma_leading(n: nat, b: Seq<char>)
    requires
        b.len() > 0 ==> b[0] != '.',
    ensures
        leading_dots(dots(n) + b) == n,
    decreases n,
{
    if n > 0 {
        assert((dots(n) + b).skip(1) =~= dots((n - 1) as nat) + b);
        lemma_leading((n - 1) as nat, b);
    }
}

proof fn lemma_contains_tail(x: Seq<char>, pat: Seq<char>)
    requires
        x.len() > 0,
        contains_seq(x.skip(1), pat),
    ensures
        contains_seq(x, pat),
{
    let p = choose|p: int| occurs_at(x.skip(1), pat, p);
    assert(x.subrange(p + 1, p + 1 + pat.len()) =~= x.skip(1).subrange(p, p + pat.len()));
    assert(occurs_at(x, pat, p + 1));
}

/// Text in which a pattern does not occur is left as it is.
proof fn lemma_replace_unchanged(x: Seq<char>, pat: Seq<char>, rep: Seq<char>)
    requires
        pat.len() > 0,
        !contains_seq(x, pat),
    ensures
        replace_all(x, pat, rep) == x,
    decreases x.len(),
{
    if x.len() > 0 {
        assert(!occurs_at(x, pat, 0));
        if contains_seq(x.skip(1), pat) {
            lemma_contains_tail(x, pat);
        }
        lemma_replace_unchanged(x.skip(1), pat, rep);
        assert(seq![x[0]] + x.skip(1) =~= x);
    }
}

proof fn lemma_absorb_unchanged(x: Seq<char>)
    requires
        !contains_seq(x, tag_dot()),
    ensures
        absorb_before_other(x) == x,
    decreases x.len(),
{
    if x.len() > 0 {
        assert(!occurs_at(x, tag_dot(), 0));
        if contains_seq(x.skip(1), tag_dot()) {
            lemma_contains_tail(x, tag_dot());
        }
        lemma_absorb_unchanged(x.skip(1));
        assert(seq![x[0]] + x.skip(1) =~= x);
    }
}

/// A pattern occurs in neither half and no occurrence can cross between them.
proof fn lemma_no_cross(x: Seq<char>, y: Seq<char>, pat: Seq<char>)
    requires
        !contains_seq(x, pat),
        !contains_seq(y, pat),
        (x.len() > 0 && forall|i: int| 0 <= i < pat.len() ==> pat[i] != x.last()) || (y.len() > 0
            && forall|i: int| 0 <= i < pat.len() ==> pat[i] != y[0]),
    ensures
        !contains_seq(x + y, pat),
{
    if contains_seq(x + y, pat) {
        let s = x + y;
        let p = choose|p: int| occurs_at(s, pat, p);
        let n = x.len() as int;
        if p + pat.len() <= n {
            assert(x.subrange(p, p + pat.len()) =~= s.subrange(p, p + pat.len()));
            assert(occurs_at(x, pat, p));
        } else if p >= n {
            assert(y.subrange(p - n, p - n + pat.len()) =~= s.subrange(p, p + pat.len()));
            assert(occurs_at(y, pat, p - n));
        } else {
            assert(s.subrange(p, p + pat.len())[n - 1 - p] == pat[n - 1 - p]);
            assert(s.subrange(p, p + pat.len())[n - p] == pat[n - p]);
            assert(s[n - 1] == x.last());
            assert(s[n] == y[0]);
        }
    }
}

/// A character that the pattern holds and the text does not keeps the
/// pattern out of the text.
proof fn lemma_missing_char(x: Seq<char>, pat: Seq<char>, i: int)
    requires
        0 <= i < pat.len(),
        free_of(x, pat[i]),
    ensures
        !contains_seq(x, pat),
{
    if contains_seq(x, pat) {
        let p = choose|p: int| occurs_at(x, pat, p);
        assert(x.subrange(p, p + pat.len())[i] == pat[i]);
    }
}

/// Text without the tag holds no grown tag either.
proof fn lemma_no_grown(b: Seq<char>)
    requires
        !contains_seq(b, tag()),
    ensures
        !contains_seq(b, tag_grown()),
{
    if contains_seq(b, tag_grown()) {
        let p = choose|p: int| occurs_at(b, tag_grown(), p);
        assert(tag() =~= seq!['D', 'O', 'T', 'M', 'U', 'L', 'T', 'I']);
        assert(tag_grown() =~= seq!['D', 'O', 'T', 'D', 'O', 'T', 'M', 'U', 'L', 'T', 'I']);
        assert forall|i: int| 0 <= i < 8 implies b.subrange(p + 3, p + 11)[i] == tag()[i] by {
            assert(b.subrange(p, p + 11)[i + 3] == tag_grown()[i + 3]);
        }
        assert(b.subrange(p + 3, p + 11) =~= tag());
        assert(occurs_at(b, tag(), p + 3));
    }
}

/// Periods followed by text without periods hold no tag followed by a period.
proof fn lemma_dots_then_plain(m: nat, b: Seq<char>)
    requires
        free_of(b, '.'),
    ensures
        !contains_seq(dots(m) + b, tag_dot()),
{
    let s = dots(m) + b;
    if contains_seq(s, tag_dot()) {
        let p = choose|p: int| occurs_at(s, tag_dot(), p);
        assert(s.subrange(p, p + 9)[0] == 'D');
        assert(s.subrange(p, p + 9)[8] == '.');
        assert(s[p] == 'D');
        assert(p >= m);
        assert(s[p + 8] == b[p + 8 - m]);
    }
}

/// What follows the run after tagging: periods, then a space and the text
/// after the run if there is any. It holds none of the three tag patterns.
proof fn lemma_clean_tail(j: nat, r: Seq<char>, b: Seq<char>)
    requires
        free_of(b, '.'),
        !contains_seq(b, tag()),
        r == seq![' '] + b || r.len() == 0,
    ensures
        !contains_seq(dots(j) + r, tag()),
        !contains_seq(dots(j) + r, tag_grown()),
        !contains_seq(dots(j) + r, tag_dot()),
{
    assert(tag() =~= seq!['D', 'O', 'T', 'M', 'U', 'L', 'T', 'I']);
    assert(tag_grown() =~= seq!['D', 'O', 'T', 'D', 'O', 'T', 'M', 'U', 'L', 'T', 'I']);
    assert(tag_dot() =~= seq!['D', 'O', 'T', 'M', 'U', 'L', 'T', 'I', '.']);
    lemma_no_grown(b);
    lemma_missing_char(b, tag_dot(), 8);
    lemma_missing_char(dots(j), tag(), 0);
    lemma_missing_char(dots(j), tag_grown(), 0);
    lemma_missing_char(dots(j), tag_dot(), 0);
    if r.len() == 0 {
        assert(dots(j) + r =~= dots(j));
    } else {
        let sp = seq![' '];
        lemma_missing_char(sp, tag(), 0);
        lemma_missing_char(sp, tag_grown(), 0);
        lemma_missing_char(sp, tag_dot(), 0);
        lemma_no_cross(sp, b, tag());
        lemma_no_cross(sp, b, tag_grown());
        lemma_no_cross(sp, b, tag_dot());
        lemma_no_cross(dots(j), r, tag());
        lemma_no_cross(dots(j), r, tag_grown());
        lemma_no_cross(dots(j), r, tag_dot());
    }
}

/// The absorbing step on the grown tag, `m` periods and plain text.
proof fn lemma_absorb_tag(k: nat, m: nat, b: Seq<char>)
    requires
        k >= 1,
        m >= 1,
        free_of(b, '.'),
    ensures
        absorb_before_other(grown(k) + dots(m) + b) == if m == 1 && b.len() > 0 {
            grown(k + 1) + seq![' '] + b
        } else {
            grown(k) + dots(m) + b
        },
    decreases k,
{
    lemma_grown(k);
    lemma_grown(k + 1);
    let s = grown(k) + dots(m) + b;
    if k >= 2 {
        let z = grown((k - 1) as nat) + dots(m) + b;
        assert(s =~= seq!['D', 'O', 'T'] + z);
        lemma_grown((k - 1) as nat);
        assert(!occurs_at(s, tag_dot(), 0)) by {
            if occurs_at(s, tag_dot(), 0) {
                assert(s.subrange(0, 9)[3] == tag_dot()[3]);
            }
        }
        let rest = s.skip(1);
        assert(rest =~= seq!['O', 'T'] + z);
        crate::multidot::lemma_absorb_prefix(rest, 2);
        assert(rest.skip(2) =~= z);
        assert(rest.take(2) =~= seq!['O', 'T']);
        lemma_absorb_tag((k - 1) as nat, m, b);
        assert(absorb_before_other(s) == seq!['D'] + (seq!['O', 'T'] + absorb_before_other(z)));
        if m == 1 && b.len() > 0 {
            assert(seq!['D'] + (seq!['O', 'T'] + (grown(k) + seq![' '] + b)) =~= grown(k + 1) + seq![' ']
                + b);
        } else {
            assert(seq!['D'] + (seq!['O', 'T'] + (grown((k - 1) as nat) + dots(m) + b)) =~= s);
        }
    } else {
        let rest = s.skip(1);
        assert(tag() =~= seq!['D', 'O', 'T', 'M', 'U', 'L', 'T', 'I']);
        assert(s.subrange(0, 9) =~= tag_dot());
        if m == 1 && b.len() > 0 {
            assert(s[9] == b[0]);
            assert(s.skip(10) =~= b.skip(1));
            lemma_missing_char(b.skip(1), tag_dot(), 8);
            lemma_absorb_unchanged(b.skip(1));
            assert(tag_grown() + seq![' ', s[9]] + b.skip(1) =~= grown(2) + seq![' '] + b);
        } else {
            assert forall|j: int| 0 <= j < 8 implies rest[j] != 'D' by {
                assert(rest[j] == s.subrange(0, 9)[j + 1]);
            }
            crate::multidot::lemma_absorb_prefix(rest, 8);
            let tail = s.skip(9);
            assert(rest.skip(8) =~= tail);
            assert(tail =~= dots((m - 1) as nat) + b);
            lemma_dots_then_plain((m - 1) as nat, b);
            lemma_absorb_unchanged(tail);
            assert(seq![s[0]] + (rest.take(8) + tail) =~= s);
        }
    }
}

proof fn lemma_replace_absent(x: Seq<char>, pat: Seq<char>, rep: Seq<char>, i: int)
    requires
        0 <= i < pat.len(),
        free_of(x, pat[i]),
    ensures
        replace_all(x, pat, rep) == x,
    decreases x.len(),
{
    if x.len() > 0 {
        assert(!occurs_at(x, pat, 0)) by {
            if occurs_at(x, pat, 0) {
                assert(x.subrange(0, pat.len() as int)[i] == pat[i]);
            }
        }
        lemma_replace_absent(x.skip(1), pat, rep, i);
        assert(seq![x[0]] + x.skip(1) =~= x);
    }
}

proof fn lemma_grown_tail(k: nat)
    requires
        k >= 1,
    ensures
        grown(k).skip(3 * (k - 1)) == tag(),
        k >= 2 ==> grown(k).skip(3 * (k - 2)) == tag_grown(),
    decreases k,
{
    lemma_grown(k);
    if k >= 2 {
        lemma_grown_tail((k - 1) as nat);
        assert(grown(k).skip(3 * (k - 1)) =~= grown((k - 1) as nat).skip(3 * (k - 2)));
        if k >= 3 {
            assert(grown(k).skip(3 * (k - 2)) =~= grown((k - 1) as nat).skip(3 * (k - 3)));
        } else {
            assert(grown(k).skip(0) =~= grown(k));
        }
    } else {
        assert(grown(k).skip(0) =~= grown(k));
    }
}

/// The replacing part of the absorbing step grows the tag by one period.
proof fn lemma_replace_tag_dot(k: nat, m: nat, b: Seq<char>)
    requires
        k >= 1,
        m >= 1,
        free_of(b, '.'),
    ensures
        replace_all(grown(k) + dots(m) + b, tag_dot(), tag_grown()) == grown(k + 1) + dots((m - 1) as nat)
            + b,
    decreases k,
{
    lemma_grown(k);
    lemma_grown(k + 1);
    let s = grown(k) + dots(m) + b;
    let w = dots((m - 1) as nat) + b;
    lemma_dots_then_plain((m - 1) as nat, b);
    assert(tag_dot()[0] == 'D');
    if k == 1 {
        assert(tag() =~= seq!['D', 'O', 'T', 'M', 'U', 'L', 'T', 'I']);
        assert(s.subrange(0, 9) =~= tag_dot());
        assert(s.skip(9) =~= w);
        lemma_replace_unchanged(w, tag_dot(), tag_grown());
        assert(tag_grown() + w =~= grown(2) + dots((m - 1) as nat) + b);
    } else {
        lemma_grown((k - 1) as nat);
        let z = grown((k - 1) as nat) + dots(m) + b;
        assert(s =~= seq!['D', 'O', 'T'] + z);
        assert(!occurs_at(s, tag_dot(), 0)) by {
            if occurs_at(s, tag_dot(), 0) {
                assert(s.subrange(0, 9)[3] == tag_dot()[3]);
            }
        }
        assert(s.skip(1) =~= seq!['O', 'T'] + z);
        lemma_replace_free_prefix(seq!['O', 'T'], z, tag_dot(), tag_grown());
        lemma_replace_tag_dot((k - 1) as nat, m, b);
        assert(seq![s[0]] + (seq!['O', 'T'] + (grown(k) + dots((m - 1) as nat) + b)) =~= grown(k + 1)
            + dots((m - 1) as nat) + b);
    }
}

proof fn lemma_tag_present(pre: Seq<char>, k: nat, m: nat, b: Seq<char>)
    requires
        k >= 1,
        m >= 1,
    ensures
        contains_seq(pre + grown(k) + dots(m) + b, tag_dot()),
{
    lemma_grown(k);
    lemma_grown_tail(k);
    let s = pre + grown(k) + dots(m) + b;
    let p = pre.len() + 3 * (k - 1);
    assert(s.subrange(p, p + 9) =~= tag_dot());
    assert(occurs_at(s, tag_dot(), p));
}

/// One step of the tagging loop on the tag and the rest of its run.
proof fn lemma_step_shape(pre: Seq<char>, k: nat, m: nat, b: Seq<char>)
    requires
        pre.len() > 0,
        pre.last() == ' ',
        free_of(pre, '.'),
        free_of(b, '.'),
        k >= 1,
        m >= 1,
    ensures
        absorb_step(pre + grown(k) + dots(m) + b) == if m == 1 && b.len() > 0 {
            pre + grown(k + 1) + seq![' '] + b
        } else {
            pre + grown(k + 1) + dots((m - 1) as nat) + b
        },
{
    lemma_grown(k);
    lemma_grown(k + 1);
    let rest = grown(k) + dots(m) + b;
    let s = pre + grown(k) + dots(m) + b;
    assert(s =~= pre + rest);
    lemma_absorb_split(pre, rest);
    lemma_missing_char(pre, tag_dot(), 8);
    lemma_absorb_unchanged(pre);
    lemma_absorb_tag(k, m, b);
    let x = absorb_before_other(rest);
    assert(tag_dot() =~= seq!['D', 'O', 'T', 'M', 'U', 'L', 'T', 'I', '.']);
    lemma_replace_split(pre, x, tag_dot(), tag_grown());
    lemma_replace_unchanged(pre, tag_dot(), tag_grown());
    if m == 1 && b.len() > 0 {
        assert(free_of(x, '.'));
        lemma_replace_absent(x, tag_dot(), tag_grown(), 8);
        assert(pre + x =~= pre + grown(k + 1) + seq![' '] + b);
    } else {
        lemma_replace_tag_dot(k, m, b);
        assert(pre + (grown(k + 1) + dots((m - 1) as nat) + b) =~= pre + grown(k + 1) + dots(
            (m - 1) as nat,
        ) + b);
    }
}

/// The tagging loop grows the tag once for each period after the first and
/// sets the text that follows off by a space.
proof fn lemma_absorb_all_shape(pre: Seq<char>, k: nat, m: nat, b: Seq<char>)
    requires
        pre.len() > 0,
        pre.last() == ' ',
        free_of(pre, '.'),
        free_of(b, '.'),
        k >= 1,
    ensures
        absorb_all(pre + grown(k) + dots(m) + b) == if m == 0 {
            pre + grown(k) + b
        } else if b.len() > 0 {
            pre + grown(k + m) + seq![' '] + b
        } else {
            pre + grown(k + m)
        },
    decreases m,
{
    lemma_grown(k);
    lemma_grown(k + 1);
    let s = pre + grown(k) + dots(m) + b;
    if m == 0 {
        assert(s =~= pre + grown(k) + b);
        assert(free_of(s, '.'));
        lemma_no_dot_no_tag(s);
    } else {
        lemma_tag_present(pre, k, m, b);
        lemma_step_shape(pre, k, m, b);
        assert(absorb_all(s) == absorb_all(absorb_step(s)));
        if m == 1 && b.len() > 0 {
            let t = pre + grown(k + 1) + seq![' '] + b;
            assert(free_of(t, '.'));
            lemma_no_dot_no_tag(t);
        } else {
            lemma_absorb_all_shape(pre, k + 1, (m - 1) as nat, b);
            if m == 1 {
                assert(pre + grown(k + 1) + b =~= pre + grown(k + 1));
            }
        }
    }
}

/// The replacing step of the restoration shrinks the tag by one period.
proof fn lemma_replace_grown(k: nat, w: Seq<char>)
    requires
        k >= 2,
        !contains_seq(w, tag_grown()),
    ensures
        replace_all(grown(k) + w, tag_grown(), tag_dot()) == grown((k - 1) as nat) + seq!['.'] + w,
    decreases k,
{
    lemma_grown(k);
    lemma_grown((k - 1) as nat);
    let s = grown(k) + w;
    assert(tag_grown()[0] == 'D');
    if k == 2 {
        assert(s.subrange(0, 11) =~= tag_grown());
        assert(s.skip(11) =~= w);
        lemma_replace_unchanged(w, tag_grown(), tag_dot());
        assert(tag_dot() + w =~= grown(1) + seq!['.'] + w);
    } else {
        lemma_grown((k - 2) as nat);
        let z = grown((k - 1) as nat) + w;
        assert(s =~= seq!['D', 'O', 'T'] + z);
        assert(grown((k - 1) as nat)[3] == 'D');
        assert(!occurs_at(s, tag_grown(), 0)) by {
            if occurs_at(s, tag_grown(), 0) {
                assert(s.subrange(0, 11)[6] == tag_grown()[6]);
            }
        }
        assert(s.skip(1) =~= seq!['O', 'T'] + z);
        lemma_replace_free_prefix(seq!['O', 'T'], z, tag_grown(), tag_dot());
        lemma_replace_grown((k - 1) as nat, w);
        assert(seq![s[0]] + (seq!['O', 'T'] + (grown((k - 2) as nat) + seq!['.'] + w)) =~= grown(
            (k - 1) as nat,
        ) + seq!['.'] + w);
    }
}

/// Where the restoration loop stops: `DOTMULTI`, periods and the text after.
proof fn lemma_unwind_done(pre: Seq<char>, j: nat, r: Seq<char>, b: Seq<char>)
    requires
        pre.len() > 0,
        pre.last() == ' ',
        !contains_seq(pre, tag_grown()),
        free_of(b, '.'),
        !contains_seq(b, tag()),
        r == seq![' '] + b || r.len() == 0,
    ensures
        !contains_seq(pre + grown(1) + dots(j) + r, tag_grown()),
{
    lemma_grown(1);
    assert(tag_grown() =~= seq!['D', 'O', 'T', 'D', 'O', 'T', 'M', 'U', 'L', 'T', 'I']);
    lemma_clean_tail(j, r, b);
    let w = dots(j) + r;
    assert(!contains_seq(grown(1), tag_grown())) by {
        if contains_seq(grown(1), tag_grown()) {
            let p = choose|p: int| occurs_at(grown(1), tag_grown(), p);
        }
    }
    if w.len() > 0 {
        assert(w[0] == '.' || w[0] == ' ');
        lemma_no_cross(grown(1), w, tag_grown());
    } else {
        assert(grown(1) + w =~= grown(1));
    }
    lemma_no_cross(pre, grown(1) + w, tag_grown());
    assert(pre + (grown(1) + w) =~= pre + grown(1) + dots(j) + r);
}

/// One step of the restoration loop on a tag grown at least once.
proof fn lemma_unwind_step(pre: Seq<char>, k: nat, j: nat, r: Seq<char>, b: Seq<char>)
    requires
        pre.len() > 0,
        pre.last() == ' ',
        !contains_seq(pre, tag_grown()),
        free_of(b, '.'),
        !contains_seq(b, tag()),
        r == seq![' '] + b || r.len() == 0,
        k >= 2,
    ensures
        contains_seq(pre + grown(k) + dots(j) + r, tag_grown()),
        replace_all(pre + grown(k) + dots(j) + r, tag_grown(), tag_dot()) == pre + grown((k - 1) as nat)
            + dots(j + 1) + r,
{
    lemma_grown(k);
    let s = pre + grown(k) + dots(j) + r;
    let w = dots(j) + r;
    assert(s =~= pre + (grown(k) + w));
    lemma_grown_tail(k);
    let p = pre.len() + 3 * (k - 2);
    assert(s.subrange(p, p + 11) =~= tag_grown());
    assert(occurs_at(s, tag_grown(), p));
    assert(tag_grown() =~= seq!['D', 'O', 'T', 'D', 'O', 'T', 'M', 'U', 'L', 'T', 'I']);
    lemma_replace_split(pre, grown(k) + w, tag_grown(), tag_dot());
    lemma_replace_unchanged(pre, tag_grown(), tag_dot());
    lemma_clean_tail(j, r, b);
    lemma_replace_grown(k, w);
    assert(pre + (grown((k - 1) as nat) + seq!['.'] + w) =~= pre + grown((k - 1) as nat) + dots(j + 1)
        + r);
}

/// The restoration loop shrinks the tag back to `DOTMULTI`, one period at a
/// time.
proof fn lemma_unwind_shape(pre: Seq<char>, k: nat, j: nat, r: Seq<char>, b: Seq<char>)
    requires
        pre.len() > 0,
        pre.last() == ' ',
        !contains_seq(pre, tag_grown()),
        free_of(b, '.'),
        !contains_seq(b, tag()),
        r == seq![' '] + b || r.len() == 0,
        k >= 1,
    ensures
        unwind(pre + grown(k) + dots(j) + r) == pre + grown(1) + dots((j + k - 1) as nat) + r,
    decreases k,
{
    let s = pre + grown(k) + dots(j) + r;
    if k == 1 {
        lemma_unwind_done(pre, j, r, b);
    } else {
        lemma_unwind_step(pre, k, j, r, b);
        assert(unwind(s) == unwind(replace_all(s, tag_grown(), tag_dot())));
        lemma_unwind_shape(pre, (k - 1) as nat, j + 1, r, b);
    }
}

/// The text after the run as the tagging leaves it: a space and the text,
/// or nothing.
pub open spec fn after_run(b: Seq<char>) -> Seq<char> {
    if b.len() > 0 {
        seq![' '] + b
    } else {
        Seq::empty()
    }
}

proof fn lemma_hide_shape(a: Seq<char>, b: Seq<char>, n: nat)
    requires
        n >= 2,
        free_of(a, '.'),
        free_of(b, '.'),
    ensures
        hide_dots_spec(a + dots(n) + b) == a + seq![' '] + grown(n) + after_run(b),
{
    let pre = a + seq![' '];
    let run = dots(n) + b;
    lemma_grown(1);
    assert(tag() =~= seq!['D', 'O', 'T', 'M', 'U', 'L', 'T', 'I']);
    assert(a + dots(n) + b =~= a + run);
    lemma_tag_runs_prefix(a, run);
    lemma_leading(n, b);
    assert(run.subrange(1, n as int) =~= dots((n - 1) as nat));
    assert(run.skip(n as int) =~= b);
    lemma_tag_runs_prefix(b, Seq::empty());
    assert(b + Seq::<char>::empty() =~= b);
    assert(tag_runs(Seq::<char>::empty()) =~= Seq::<char>::empty());
    assert(tag_runs(a + dots(n) + b) =~= pre + grown(1) + dots((n - 1) as nat) + b);
    lemma_absorb_all_shape(pre, 1, (n - 1) as nat, b);
    if b.len() > 0 {
        assert(pre + grown(n) + seq![' '] + b =~= pre + grown(n) + after_run(b));
    } else {
        assert(pre + grown(n) =~= pre + grown(n) + after_run(b));
    }
}

proof fn lemma_restore_shape(a: Seq<char>, b: Seq<char>, n: nat)
    requires
        n >= 2,
        free_of(b, '.'),
        !contains_seq(a, tag()),
        !contains_seq(b, tag()),
    ensures
        restore_dots_spec(a + seq![' '] + grown(n) + after_run(b)) == a + seq![' '] + dots(n)
            + after_run(b),
{
    let sp = seq![' '];
    let pre = a + sp;
    let r = after_run(b);
    lemma_grown(1);
    assert(tag() =~= seq!['D', 'O', 'T', 'M', 'U', 'L', 'T', 'I']);
    assert(tag_grown() =~= seq!['D', 'O', 'T', 'D', 'O', 'T', 'M', 'U', 'L', 'T', 'I']);
    lemma_no_grown(a);
    lemma_missing_char(sp, tag_grown(), 0);
    lemma_missing_char(sp, tag(), 0);
    lemma_no_cross(a, sp, tag_grown());
    lemma_no_cross(a, sp, tag());
    assert(pre + grown(n) + r =~= pre + grown(n) + dots(0) + r);
    lemma_unwind_shape(pre, n, 0, r, b);
    let tail = dots((n - 1) as nat) + r;
    let u = pre + grown(1) + dots((n - 1) as nat) + r;
    assert(u =~= pre + (tag() + tail));
    lemma_replace_split(pre, tag() + tail, tag(), seq!['.']);
    lemma_replace_unchanged(pre, tag(), seq!['.']);
    assert((tag() + tail).subrange(0, 8) =~= tag());
    assert((tag() + tail).skip(8) =~= tail);
    lemma_clean_tail((n - 1) as nat, r, b);
    lemma_replace_unchanged(tail, tag(), seq!['.']);
    assert(pre + (seq!['.'] + tail) =~= a + seq![' '] + dots(n) + r);
}

/// A run of `n >= 2` periods between two pieces of text without periods and
/// without the tag's own letters `DOTMULTI` comes back from hiding and
/// restoring as the same `n` periods, set off from the text before it by a
/// space, and from the text after it, if any, by another.
pub proof fn multi_dot_round_trip(a: Seq<char>, b: Seq<char>, n: nat)
    requires
        n >= 2,
        free_of(a, '.'),
        free_of(b, '.'),
        !contains_seq(a, tag()),
        !contains_seq(b, tag()),
    ensures
        restore_dots_spec(hide_dots_spec(a + dots(n) + b)) == a + seq![' '] + dots(n) + after_run(b),
{
    lemma_hide_shape(a, b, n);
    lemma_restore_shape(a, b, n);
}


pub open spec fn simple_char(c: char) -> bool {
    ascii_letter(c) || c == '.' || c == ' '
}

/// Text of ASCII letters, periods and spaces.
pub open spec fn simple(s: Seq<char>) -> bool {
    forall|i: int| 0 <= i < s.len() ==> simple_char(#[trigger] s[i])
}

/// A non-empty word of ASCII letters.
pub open spec fn ascii_word(w: Seq<char>) -> bool {
    w.len() > 0 && forall|i: int| 0 <= i < w.len() ==> ascii_letter(#[trigger] w[i])
}

proof fn lemma_simple_passes(s: Seq<char>, p: SplitProfile, x: char, l: Side, r: Side, g: Gap)
    requires
        simple(s),
        !simple_char(x),
    ensures
        drop_controls(s) == s,
        pad_specials(s, p) == s,
        pad_unless_lower_follows(s, x) == s,
        mark_hyphens(s) == s,
        comma_after_other(s) == s,
        comma_before_other(s) == s,
        comma_at_end(s) == s,
        apostrophe_rule(s, l, r, g) == s,
        replace_all(s, seq!['\''], seq![' ', '\'', ' ']) == s,
        escape_spec(s) == s,
    decreases s.len(),
{
    if s.len() > 0 {
        lemma_simple_passes(s.skip(1), p, x, l, r, g);
        if s.len() >= 2 {
            lemma_simple_passes(s.skip(2), p, x, l, r, g);
        }
        if s.len() >= 3 {
            lemma_simple_passes(s.skip(3), p, x, l, r, g);
        }
        assert(seq![s[0]] + s.skip(1) =~= s);
        assert(!crate::text::occurs_at(s, seq!['\''], 0)) by {
            if crate::text::occurs_at(s, seq!['\''], 0) {
                assert(s.subrange(0, 1)[0] == '\'');
            }
        }
        if s.len() < 3 {
            assert(s.len() < 2 ==> s.skip(1).len() < 2);
        }
    }
}

proof fn lemma_simple_line_passes(s: Seq<char>, language: Language, aggressive: bool)
    requires
        simple(s),
    ensures
        ({
            let a = split_characters_spec(s, split_profile_of(language));
            let b = if aggressive { mark_hyphens(a) } else { a };
            b == s
        }),
        separate_commas_spec(s) == s,
        split_contractions_spec(s, contraction_style_of(language)) == s,
        escape_spec(s) == s,
{
    let p = split_profile_of(language);
    lemma_simple_passes(s, p, ':', Side::NotLetter, Side::NotLetter, Gap::Around);
    lemma_simple_passes(s, p, '\'', Side::NotLetter, Side::NotLetter, Gap::Around);
    lemma_simple_passes(s, p, '\u{b7}', Side::NotLetter, Side::NotLetter, Gap::Around);
    lemma_simple_passes(s, p, ':', Side::NotLetterOrNumber, Side::Letter, Gap::Around);
    lemma_simple_passes(s, p, ':', Side::NotLetter, Side::Letter, Gap::Around);
    lemma_simple_passes(s, p, ':', Side::Letter, Side::NotLetter, Gap::Around);
    lemma_simple_passes(s, p, ':', Side::Letter, Side::Letter, Gap::Before);
    lemma_simple_passes(s, p, ':', Side::Number, Side::LowerS, Gap::Before);
    lemma_simple_passes(s, p, ':', Side::Letter, Side::Letter, Gap::After);
}

/// Text without leading, trailing or doubled spaces.
pub open spec fn tidy(s: Seq<char>) -> bool {
    &&& simple(s)
    &&& s.len() > 0 ==> s[0] != ' ' && s.last() != ' '
    &&& forall|i: int| 0 <= i < s.len() - 1 && s[i] == ' ' ==> #[trigger] s[i + 1] != ' '
}

proof fn lemma_collapse_tidy(s: Seq<char>, started: bool)
    requires
        tidy(s),
    ensures
        collapse_from(s, started, false) == s,
    decreases s.len(),
{
    if s.len() > 0 {
        let rest = s.skip(1);
        assert(simple_char(s[0]));
        assert(!is_space(s[0]));
        assert(collapse_from(s, started, false) == seq![s[0]] + collapse_from(rest, true, false));
        if rest.len() == 0 {
            assert(seq![s[0]] =~= s);
        } else if rest[0] != ' ' {
            assert(rest[0] == s[1]);
            assert(tidy(rest)) by {
                assert(rest.last() == s.last());
                assert forall|i: int| 0 <= i < rest.len() - 1 && rest[i] == ' ' implies #[trigger] rest[i + 1] != ' ' by {
                    assert(rest[i] == s[i + 1] && rest[i + 1] == s[i + 2]);
                }
            }
            lemma_collapse_tidy(rest, true);
            assert(seq![s[0]] + rest =~= s);
        } else {
            let t = rest.skip(1);
            assert(rest[0] == s[1]);
            assert(s.len() >= 3) by {
                if s.len() == 2 {
                    assert(s.last() == s[1]);
                }
            }
            assert(s[1] == ' ');
            assert(s[1int + 1] != ' ');
            assert(rest.len() >= 2);
            assert(tidy(t)) by {
                assert(t.last() == s.last());
                assert(t[0] == s[2]);
                assert forall|i: int| 0 <= i < t.len() - 1 && t[i] == ' ' implies #[trigger] t[i + 1] != ' ' by {
                    assert(t[i] == s[i + 2] && t[i + 1] == s[i + 3]);
                }
            }
            lemma_collapse_tidy(t, true);
            assert(is_space(rest[0]));
            assert(!is_space(t[0]));
            assert(collapse_from(rest, true, false) == collapse_from(t, true, true));
            assert(collapse_from(t, true, true) == seq![' ', t[0]] + collapse_from(t.skip(1), true, false));
            assert(collapse_from(t, true, false) == seq![t[0]] + collapse_from(t.skip(1), true, false));
            assert(seq![s[0]] + (seq![' ', t[0]] + collapse_from(t.skip(1), true, false)) =~= seq![s[0], ' ']
                + collapse_from(t, true, false));
            assert(seq![s[0], ' '] + t =~= s);
        }
    }
}

proof fn lemma_no_tag_spans(s: Seq<char>, from: nat)
    requires
        !contains_seq(s, tag()),
    ensures
        literal_spans(s, tag(), from) == Seq::<(usize, usize)>::empty(),
    decreases s.len() - from,
{
    if tag().len() == 0 || from >= s.len() {
    } else {
        assert(!occurs_at(s, tag(), from as int));
        lemma_no_tag_spans(s, from + 1);
    }
}

proof fn lemma_words_front(w: Seq<char>, rest: Seq<char>)
    requires
        w.len() > 0,
        forall|i: int| 0 <= i < w.len() ==> !is_space(#[trigger] w[i]),
        rest.len() == 0 || rest[0] == ' ',
    ensures
        words(w + rest) == seq![w] + words(rest),
{
    let s = w + rest;
    crate::abbrev::lemma_word_len(s, w.len() as int);
    assert(s.take(w.len() as int) =~= w);
    assert(s.skip(w.len() as int) =~= rest);
}

proof fn lemma_grown_simple(k: nat)
    ensures
        ascii_word(grown(k)),
    decreases k,
{
    if k > 0 {
        lemma_grown_simple((k - 1) as nat);
        let g = grown(k);
        let h = grown((k - 1) as nat);
        assert forall|i: int| 0 <= i < g.len() implies ascii_letter(#[trigger] g[i]) by {
            if i >= 3 {
                assert(g[i] == h[i - 3]);
            }
        }
    } else {
        reveal_with_fuel(grown, 1);
    }
}

/// The word step of a line `a G R`: no word ends with a period, so the line
/// comes back as it is.
proof fn lemma_resolve_three(a: Seq<char>, g: Seq<char>, b: Seq<char>, dict: Map<Seq<char>, PrefixType>)
    requires
        ascii_word(a),
        ascii_word(g),
        b.len() == 0 || ascii_word(b),
    ensures
        resolve_periods_spec(a + seq![' '] + g + after_run(after_run(b)), dict) == a + seq![' '] + g + after_run(b),
{
    let r = after_run(b);
    let rr = after_run(r);
    let x = a + seq![' '] + g + rr;
    let s = a + seq![' '] + g + r;
    assert forall|i: int| 0 <= i < a.len() implies !is_space(#[trigger] a[i]) by {}
    assert forall|i: int| 0 <= i < g.len() implies !is_space(#[trigger] g[i]) by {}
    lemma_words_front(a, seq![' '] + g + rr);
    assert(x =~= a + (seq![' '] + g + rr));
    assert(words(seq![' '] + g + rr) == words(g + rr)) by {
        assert((seq![' '] + g + rr).skip(1) =~= g + rr);
    }
    lemma_words_front(g, rr);
    let ws = if b.len() > 0 { seq![a, g, b] } else { seq![a, g] };
    if b.len() > 0 {
        assert forall|i: int| 0 <= i < b.len() implies !is_space(#[trigger] b[i]) by {}
        assert(words(rr) == words(r)) by {
            assert(rr.skip(1) =~= r);
        }
        assert(words(r) == words(b)) by {
            assert(r.skip(1) =~= b);
        }
        lemma_words_front(b, Seq::empty());
        assert(b + Seq::<char>::empty() =~= b);
        assert(words(Seq::<char>::empty()) =~= Seq::<Seq<char>>::empty());
        assert(words(x) =~= ws);
    } else {
        assert(rr =~= Seq::<char>::empty());
        assert(words(rr) =~= Seq::<Seq<char>>::empty());
        assert(words(x) =~= ws);
    }
    let rs = resolve_words(ws, dict);
    assert(rs =~= ws) by {
        assert forall|i: int| 0 <= i < ws.len() implies rs[i] == ws[i] by {
            assert(ascii_word(ws[i]));
            assert(ws[i].last() != '.');
        }
    }
    if b.len() > 0 {
        assert(ws.drop_last() =~= seq![a, g]);
        assert(seq![a, g].drop_last() =~= seq![a]);
        assert(join(seq![a]) == a);
        assert(join(seq![a, g]) == a + seq![' '] + g);
        assert(join(ws) == a + seq![' '] + g + seq![' '] + b);
        assert(r =~= seq![' '] + b);
        assert(a + seq![' '] + g + seq![' '] + b =~= s);
    } else {
        assert(ws.drop_last() =~= seq![a]);
        assert(join(seq![a]) == a);
        assert(join(ws) == a + seq![' '] + g);
        assert(a + seq![' '] + g =~= s);
    }
    assert(s.last() != '\'');
}

/// Normalization pads the line, and nothing in it spells the tag.
proof fn lemma_line_front(a: Seq<char>, b: Seq<char>, n: nat)
    requires
        n >= 2,
        ascii_word(a),
        b.len() == 0 || ascii_word(b),
        !contains_seq(a, tag()),
        !contains_seq(b, tag()),
    ensures
        ({
            let text = a + dots(n) + after_run(b);
            let padded = seq![' '] + text + seq![' '];
            &&& simple(text)
            &&& normalize_spec(text) == padded
            &&& literal_spans(padded, tag(), 0) == Seq::<(usize, usize)>::empty()
            &&& collapse(padded) == text
        }),
{
    let sp = seq![' '];
    let text = a + dots(n) + after_run(b);
    let r = after_run(b);
    assert(simple(text)) by {
        if b.len() > 0 {
            assert(text =~= a + dots(n) + sp + b);
        }
    }
    assert(tidy(text)) by {
        if b.len() > 0 {
            assert(text =~= a + dots(n) + sp + b);
            assert(text.last() == b.last());
            assert forall|i: int| 0 <= i < text.len() - 1 && text[i] == ' ' implies #[trigger] text[i + 1] != ' ' by {
                assert(i == a.len() + n);
                assert(text[i + 1] == b[0]);
            }
        } else {
            assert(text =~= a + dots(n));
            assert(text.last() == '.');
        }
    }
    lemma_collapse_tidy(text, false);
    let padded = sp + text + sp;
    assert(simple(padded));
    lemma_simple_passes(padded, SplitProfile::Plain, ':', Side::Letter, Side::Letter, Gap::Around);
    assert(tag() =~= seq!['D', 'O', 'T', 'M', 'U', 'L', 'T', 'I']);
    lemma_missing_char(sp, tag(), 0);
    lemma_missing_char(dots(n), tag(), 0);
    lemma_no_cross(sp, a, tag());
    lemma_no_cross(sp + a, dots(n), tag());
    if b.len() > 0 {
        lemma_no_cross(sp, b, tag());
        lemma_no_cross(sp + a + dots(n), r, tag());
    }
    assert(sp + a + dots(n) + r =~= sp + text);
    lemma_no_cross(sp + text, sp, tag());
    lemma_no_tag_spans(padded, 0);
    crate::normalize::lemma_collapse_space_end(sp + text, ' ', false, false);
    assert((sp + text).skip(1) =~= text);
    assert(collapse_from(sp + text, false, false) == collapse_from(text, false, false));
}

/// The passes between protection and restoration on the padded line.
proof fn lemma_line_middle(
    a: Seq<char>,
    b: Seq<char>,
    n: nat,
    language: Language,
    aggressive: bool,
    prefixes: Map<Seq<char>, PrefixType>,
)
    requires
        n >= 2,
        ascii_word(a),
        b.len() == 0 || ascii_word(b),
        simple(a + dots(n) + after_run(b)),
    ensures
        ({
            let text = a + dots(n) + after_run(b);
            let a1 = split_characters_spec(text, split_profile_of(language));
            let b1 = if aggressive { mark_hyphens(a1) } else { a1 };
            let c1 = separate_commas_spec(hide_dots_spec(b1));
            resolve_periods_spec(split_contractions_spec(c1, contraction_style_of(language)), prefixes)
                == a + seq![' '] + grown(n) + after_run(b)
        }),
{
    let sp = seq![' '];
    let r = after_run(b);
    let text = a + dots(n) + r;
    lemma_simple_line_passes(text, language, aggressive);
    assert(free_of(r, '.'));
    lemma_hide_shape(a, r, n);
    lemma_grown_simple(n);
    let hidden = a + sp + grown(n) + after_run(r);
    assert(simple(hidden)) by {
        if b.len() > 0 {
            assert(hidden =~= a + sp + grown(n) + sp + sp + b);
        } else {
            assert(hidden =~= a + sp + grown(n));
        }
    }
    lemma_simple_line_passes(hidden, language, aggressive);
    lemma_resolve_three(a, grown(n), b, prefixes);
}

/// A line of two words of ASCII letters with a run of `n >= 2` periods
/// between them, or of one word ending in the run, tokenizes, without
/// protected patterns and in any language, as the words and exactly the
/// same `n` periods, each set off by one space.
pub proof fn multi_dot_line_round_trip(
    a: Seq<char>,
    b: Seq<char>,
    n: nat,
    language: Language,
    no_escaping: bool,
    aggressive: bool,
    prefixes: Map<Seq<char>, PrefixType>,
)
    requires
        n >= 2,
        ascii_word(a),
        b.len() == 0 || ascii_word(b),
        !contains_seq(a, tag()),
        !contains_seq(b, tag()),
    ensures
        tokenize_line_spec(a + dots(n) + after_run(b), Seq::empty(), language, no_escaping, aggressive, prefixes)
            == a + seq![' '] + dots(n) + after_run(b) + seq!['\n'],
{
    reveal(tokenize_line_spec);
    let sp = seq![' '];
    let r = after_run(b);
    let text = a + dots(n) + r;
    let padded = sp + text + sp;
    lemma_line_front(a, b, n);
    assert(protect_named(padded, Seq::empty(), 0) == (padded, Seq::<(Seq<char>, Seq<char>)>::empty()));
    let spans = literal_spans(padded, tag(), 0);
    assert(protect_from(padded, spans, 0, 0, 0) =~= padded);
    assert(protected_entries(padded, spans, 0) =~= Seq::<(Seq<char>, Seq<char>)>::empty());
    assert(Seq::<(Seq<char>, Seq<char>)>::empty() + Seq::<(Seq<char>, Seq<char>)>::empty() =~= Seq::<(Seq<char>, Seq<char>)>::empty());
    lemma_line_middle(a, b, n, language, aggressive, prefixes);
    lemma_restore_shape(a, b, n);
    let u = a + sp + dots(n) + r;
    assert(simple(u)) by {
        if b.len() > 0 {
            assert(u =~= a + sp + dots(n) + sp + b);
        }
    }
    lemma_simple_line_passes(u, language, aggressive);
    assert(u.last() != '\n');
    assert(with_newline(u) == u.push('\n'));
    assert(u.push('\n') =~= u + seq!['\n']);
}

} // verus!
