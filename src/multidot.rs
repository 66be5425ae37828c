//! Runs of two or more periods are hidden behind a tag while sentence-final
//! periods are decided, and brought back afterwards.

use vstd::prelude::*;
use crate::text::{contains_seq, contains_exec, occurs_at, occurs_at_exec, replace_all, replace_all_exec};

verus! {

pub open spec fn tag() -> Seq<char> {
    seq!['D', 'O', 'T', 'M', 'U', 'L', 'T', 'I']
}

/// The tag followed by one period.
pub open spec fn tag_dot() -> Seq<char> {
    tag() + seq!['.']
}

/// The tag with one more `DOT` in front of it.
pub open spec fn tag_grown() -> Seq<char> {
    seq!['D', 'O', 'T'] + tag()
}

/// The number of times `c` occurs in `s`.
pub open spec fn count_char(s: Seq<char>, c: char) -> nat
    decreases s.len(),
{
    if s.len() == 0 {
        0
    } else {
        (if s[0] == c { 1nat } else { 0nat }) + count_char(s.skip(1), c)
    }
}

/// The number of periods at the start of `s`.
pub open spec fn leading_dots(s: Seq<char>) -> nat
    decreases s.len(),
{
    if s.len() == 0 || s[0] != '.' {
        0
    } else {
        1 + leading_dots(s.skip(1))
    }
}

/// A run of `k >= 2` periods becomes a space, the tag, and the run's last
/// `k - 1` periods.
pub open spec fn tag_runs(s: Seq<char>) -> Seq<char>
    decreases s.len(),
{
    if s.len() < 2 {
        s
    } else if s[0] == '.' && s[1] == '.' {
        let k = leading_dots(s);
        if 0 < k <= s.len() {
            seq![' '] + tag() + s.subrange(1, k as int) + tag_runs(s.skip(k as int))
        } else {
            s
        }
    } else {
        seq![s[0]] + tag_runs(s.skip(1))
    }
}

/// A tag, a period and a character other than a period become the grown tag,
/// a space and that character.
pub open spec fn absorb_before_other(s: Seq<char>) -> Seq<char>
    decreases s.len(),
{
    if s.len() == 0 {
        s
    } else if s.len() >= 10 && occurs_at(s, tag_dot(), 0) && s[9] != '.' {
        tag_grown() + seq![' ', s[9]] + absorb_before_other(s.skip(10))
    } else {
        seq![s[0]] + absorb_before_other(s.skip(1))
    }
}

/// One step of the tagging loop.
pub open spec fn absorb_step(s: Seq<char>) -> Seq<char> {
    replace_all(absorb_before_other(s), tag_dot(), tag_grown())
}

/// The tagging loop: steps until no tag is followed by a period.
pub open spec fn absorb_all(s: Seq<char>) -> Seq<char>
    decreases count_char(s, '.'),
    via absorb_all_decreases
{
    if contains_seq(s, tag_dot()) {
        absorb_all(absorb_step(s))
    } else {
        s
    }
}

/// The tagging of multi-period runs, to a fixed point.
pub open spec fn hide_dots_spec(s: Seq<char>) -> Seq<char> {
    absorb_all(tag_runs(s))
}

/// Grown tags shrink back, each giving back its period, until none is left.
pub open spec fn unwind(s: Seq<char>) -> Seq<char>
    decreases s.len(),
    via unwind_decreases
{
    if contains_seq(s, tag_grown()) {
        unwind(replace_all(s, tag_grown(), tag_dot()))
    } else {
        s
    }
}

/// The restoration of multi-period runs.
pub open spec fn restore_dots_spec(s: Seq<char>) -> Seq<char> {
    replace_all(unwind(s), tag(), seq!['.'])
}

proof fn lemma_count_concat(a: Seq<char>, b: Seq<char>, c: char)
    ensures
        count_char(a + b, c) == count_char(a, c) + count_char(b, c),
    decreases a.len(),
{
    if a.len() > 0 {
        assert((a + b).skip(1) =~= a.skip(1) + b);
        lemma_count_concat(a.skip(1), b, c);
    } else {
        assert(a + b =~= b);
    }
}

proof fn lemma_contains_rest(s: Seq<char>, pat: Seq<char>)
    requires
        s.len() > 0,
        contains_seq(s, pat),
        !occurs_at(s, pat, 0),
    ensures
        contains_seq(s.skip(1), pat),
{
    let i = choose|i: int| occurs_at(s, pat, i);
    assert(i > 0);
    assert(s.skip(1).subrange(i - 1, i - 1 + pat.len()) =~= s.subrange(i, i + pat.len()));
    assert(occurs_at(s.skip(1), pat, i - 1));
}

proof fn lemma_contains_prepend(c: char, s: Seq<char>, pat: Seq<char>)
    requires
        contains_seq(s, pat),
    ensures
        contains_seq(seq![c] + s, pat),
{
    let i = choose|i: int| occurs_at(s, pat, i);
    assert((seq![c] + s).subrange(i + 1, i + 1 + pat.len()) =~= s.subrange(i, i + pat.len()));
    assert(occurs_at(seq![c] + s, pat, i + 1));
}

proof fn lemma_occurs_split(s: Seq<char>, pat: Seq<char>)
    requires
        occurs_at(s, pat, 0),
    ensures
        s == pat + s.skip(pat.len() as int),
{
    assert(s =~= s.subrange(0, pat.len() as int) + s.skip(pat.len() as int));
}

/// Replacing a pattern by one with fewer periods never adds periods, and
/// removes some when the pattern occurs.
proof fn lemma_replace_count(s: Seq<char>, pat: Seq<char>, rep: Seq<char>, c: char)
    requires
        pat.len() > 0,
        count_char(rep, c) < count_char(pat, c),
    ensures
        count_char(replace_all(s, pat, rep), c) <= count_char(s, c),
        contains_seq(s, pat) ==> count_char(replace_all(s, pat, rep), c) < count_char(s, c),
    decreases s.len(),
{
    if s.len() == 0 {
        assert(!occurs_at(s, pat, 0));
        if contains_seq(s, pat) {
            let i = choose|i: int| occurs_at(s, pat, i);
        }
    } else if occurs_at(s, pat, 0) {
        let rest = s.skip(pat.len() as int);
        lemma_replace_count(rest, pat, rep, c);
        lemma_occurs_split(s, pat);
        lemma_count_concat(pat, rest, c);
        lemma_count_concat(rep, replace_all(rest, pat, rep), c);
    } else {
        let rest = s.skip(1);
        lemma_replace_count(rest, pat, rep, c);
        lemma_count_concat(seq![s[0]], replace_all(rest, pat, rep), c);
        assert(s =~= seq![s[0]] + rest);
        lemma_count_concat(seq![s[0]], rest, c);
        if contains_seq(s, pat) {
            lemma_contains_rest(s, pat);
        }
    }
}

/// Replacing a pattern by a shorter one shortens the text when it occurs.
pub(crate) proof fn lemma_replace_len(s: Seq<char>, pat: Seq<char>, rep: Seq<char>)
    requires
        rep.len() < pat.len(),
    ensures
        replace_all(s, pat, rep).len() <= s.len(),
        contains_seq(s, pat) ==> replace_all(s, pat, rep).len() < s.len(),
    decreases s.len(),
{
    if s.len() == 0 {
        if contains_seq(s, pat) {
            let i = choose|i: int| occurs_at(s, pat, i);
        }
    } else if occurs_at(s, pat, 0) {
        lemma_replace_len(s.skip(pat.len() as int), pat, rep);
    } else {
        lemma_replace_len(s.skip(1), pat, rep);
        if contains_seq(s, pat) {
            lemma_contains_rest(s, pat);
        }
    }
}

/// Absorbing never leaves a character without a `D` in front unchanged.
pub(crate) proof fn lemma_absorb_prefix(s: Seq<char>, k: int)
    requires
        0 <= k <= s.len(),
        forall|j: int| 0 <= j < k ==> s[j] != 'D',
    ensures
        absorb_before_other(s) == s.take(k) + absorb_before_other(s.skip(k)),
    decreases k,
{
    if k == 0 {
        assert(s.skip(0) =~= s);
        assert(s.take(0) + absorb_before_other(s) =~= absorb_before_other(s));
    } else {
        assert(!occurs_at(s, tag_dot(), 0)) by {
            if occurs_at(s, tag_dot(), 0) {
                assert(s.subrange(0, 9)[0] == tag_dot()[0]);
            }
        }
        let rest = s.skip(1);
        lemma_absorb_prefix(rest, k - 1);
        assert(rest.skip(k - 1) =~= s.skip(k));
        assert(s.take(k) =~= seq![s[0]] + rest.take(k - 1));
    }
}

proof fn lemma_dot_counts()
    ensures
        count_char(tag_dot(), '.') == 1,
        count_char(tag_grown(), '.') == 0,
{
    reveal_with_fuel(count_char, 12);
}

/// Where the tag and its period start the text and absorb the next character.
proof fn lemma_absorb_count_at_match(s: Seq<char>)
    requires
        s.len() >= 10,
        occurs_at(s, tag_dot(), 0),
        s[9] != '.',
        count_char(absorb_before_other(s.skip(10)), '.') <= count_char(s.skip(10), '.'),
    ensures
        count_char(absorb_before_other(s), '.') < count_char(s, '.'),
{
    let rest = s.skip(10);
    let head = tag_grown() + seq![' ', s[9]];
    assert(s =~= s.take(9) + seq![s[9]] + rest);
    assert(s.take(9) =~= tag_dot());
    lemma_count_concat(s.take(9) + seq![s[9]], rest, '.');
    lemma_count_concat(s.take(9), seq![s[9]], '.');
    lemma_count_concat(head, absorb_before_other(rest), '.');
    lemma_count_concat(tag_grown(), seq![' ', s[9]], '.');
    lemma_dot_counts();
    assert(count_char(seq![' ', s[9]], '.') == 0) by {
        reveal_with_fuel(count_char, 3);
    }
    assert(count_char(seq![s[9]], '.') == 0) by {
        reveal_with_fuel(count_char, 2);
    }
}

/// Where the tag and its period start the text but absorb nothing, they stay.
proof fn lemma_absorb_keeps_tag(s: Seq<char>)
    requires
        occurs_at(s, tag_dot(), 0),
        !(s.len() >= 10 && s[9] != '.'),
    ensures
        contains_seq(absorb_before_other(s), tag_dot()),
{
    let rest = s.skip(1);
    assert(s.take(9) =~= tag_dot());
    assert forall|j: int| 0 <= j < 8 implies rest[j] != 'D' by {
        assert(rest[j] == s.take(9)[j + 1]);
    }
    lemma_absorb_prefix(rest, 8);
    assert(absorb_before_other(s) == seq![s[0]] + absorb_before_other(rest));
    let out = absorb_before_other(s);
    assert(out.subrange(0, 9) =~= tag_dot());
    assert(occurs_at(out, tag_dot(), 0));
}

proof fn lemma_absorb_count(s: Seq<char>)
    ensures
        count_char(absorb_before_other(s), '.') <= count_char(s, '.'),
        contains_seq(s, tag_dot()) ==> count_char(absorb_before_other(s), '.') < count_char(s, '.')
            || contains_seq(absorb_before_other(s), tag_dot()),
    decreases s.len(),
{
    if s.len() == 0 {
        if contains_seq(s, tag_dot()) {
            let i = choose|i: int| occurs_at(s, tag_dot(), i);
        }
    } else if s.len() >= 10 && occurs_at(s, tag_dot(), 0) && s[9] != '.' {
        lemma_absorb_count(s.skip(10));
        lemma_absorb_count_at_match(s);
    } else {
        let rest = s.skip(1);
        lemma_absorb_count(rest);
        assert(s =~= seq![s[0]] + rest);
        lemma_count_concat(seq![s[0]], rest, '.');
        lemma_count_concat(seq![s[0]], absorb_before_other(rest), '.');
        if contains_seq(s, tag_dot()) {
            if occurs_at(s, tag_dot(), 0) {
                lemma_absorb_keeps_tag(s);
            } else {
                lemma_contains_rest(s, tag_dot());
                if contains_seq(absorb_before_other(rest), tag_dot()) {
                    lemma_contains_prepend(s[0], absorb_before_other(rest), tag_dot());
                }
            }
        }
    }
}

#[via_fn]
proof fn absorb_all_decreases(s: Seq<char>) {
    if contains_seq(s, tag_dot()) {
        lemma_absorb_step_count(s);
    }
}

pub(crate) proof fn lemma_absorb_step_count(s: Seq<char>)
    requires
        contains_seq(s, tag_dot()),
    ensures
        count_char(absorb_step(s), '.') < count_char(s, '.'),
{
    let t = absorb_before_other(s);
    lemma_absorb_count(s);
    lemma_dot_counts();
    lemma_replace_count(t, tag_dot(), tag_grown(), '.');
}

#[via_fn]
proof fn unwind_decreases(s: Seq<char>) {
    if contains_seq(s, tag_grown()) {
        lemma_replace_len(s, tag_grown(), tag_dot());
    }
}

pub fn tag_chars() -> (r: Vec<char>)
    ensures
        r@ == tag(),
{
    let r = vec!['D', 'O', 'T', 'M', 'U', 'L', 'T', 'I'];
    assert(r@ =~= tag());
    r
}

fn tag_dot_vec() -> (r: Vec<char>)
    ensures
        r@ == tag_dot(),
{
    let mut r = tag_chars();
    r.push('.');
    r
}

fn tag_grown_vec() -> (r: Vec<char>)
    ensures
        r@ == tag_grown(),
{
    let r = vec!['D', 'O', 'T', 'D', 'O', 'T', 'M', 'U', 'L', 'T', 'I'];
    assert(r@ =~= tag_grown());
    r
}

proof fn lemma_leading_dots(s: Seq<char>, k: int)
    requires
        0 <= k <= s.len(),
        forall|j: int| 0 <= j < k ==> s[j] == '.',
        k == s.len() || s[k] != '.',
    ensures
        leading_dots(s) == k,
    decreases k,
{
    if k > 0 {
        lemma_leading_dots(s.skip(1), k - 1);
    }
}

pub fn tag_runs_exec(s: &Vec<char>) -> (r: Vec<char>)
    ensures
        r@ == tag_runs(s@),
{
    let n = s.len();
    let mut out: Vec<char> = Vec::new();
    let mut i: usize = 0;
    assert(s@.skip(0) =~= s@);
    while i < n
        invariant
            n == s@.len(),
            i <= n,
            tag_runs(s@) == out@ + tag_runs(s@.skip(i as int)),
        decreases n - i,
    {
        let c = s[i];
        if n - i >= 2 && c == '.' && s[i + 1] == '.' {
            let mut j: usize = i + 2;
            while j < n && s[j] == '.'
                invariant
                    n == s@.len(),
                    i + 2 <= j <= n,
                    forall|k: int| i <= k < j ==> s@[k] == '.',
                decreases n - j,
            {
                j += 1;
            }
            let ghost rest = s@.skip(i as int);
            proof {
                lemma_leading_dots(rest, j - i);
                assert(rest.skip(j - i) =~= s@.skip(j as int));
                assert(rest.subrange(1, j - i) =~= s@.subrange(i + 1, j as int));
            }
            out.push(' ');
            let t = tag_chars();
            crate::text::push_all(&mut out, &t);
            let mut k: usize = i + 1;
            let ghost before = out@;
            while k < j
                invariant
                    n == s@.len(),
                    i + 1 <= k <= j <= n,
                    out@ == before + s@.subrange(i + 1, k as int),
                decreases j - k,
            {
                out.push(s[k]);
                k += 1;
                assert(s@.subrange(i + 1, k as int) =~= s@.subrange(i + 1, k - 1) + seq![s@[k - 1]]);
            }
            assert(out@ =~= before + s@.subrange(i + 1, j as int));
            i = j;
        } else {
            assert(s@.skip(i as int).skip(1) =~= s@.skip(i + 1));
            if n - i < 2 {
                assert(s@.skip(i as int) =~= seq![c] + s@.skip(i + 1));
                assert(s@.skip(i + 1).len() == 0);
            }
            out.push(c);
            i += 1;
        }
    }
    assert(out@ + Seq::<char>::empty() =~= out@);
    out
}

pub fn absorb_before_other_exec(s: &Vec<char>) -> (r: Vec<char>)
    ensures
        r@ == absorb_before_other(s@),
{
    let n = s.len();
    let pat = tag_dot_vec();
    let grown = tag_grown_vec();
    let mut out: Vec<char> = Vec::new();
    let mut i: usize = 0;
    assert(s@.skip(0) =~= s@);
    while i < n
        invariant
            n == s@.len(),
            i <= n,
            pat@ == tag_dot(),
            grown@ == tag_grown(),
            absorb_before_other(s@) == out@ + absorb_before_other(s@.skip(i as int)),
        decreases n - i,
    {
        let ghost rest = s@.skip(i as int);
        if n - i >= 10 && occurs_at_exec(s, &pat, i) && s[i + 9] != '.' {
            assert(rest.subrange(0, 9) =~= s@.subrange(i as int, i + 9));
            assert(rest.skip(10) =~= s@.skip(i + 10));
            crate::text::push_all(&mut out, &grown);
            out.push(' ');
            out.push(s[i + 9]);
            i += 10;
        } else {
            assert(!(rest.len() >= 10 && occurs_at(rest, tag_dot(), 0) && rest[9] != '.')) by {
                if rest.len() >= 10 && occurs_at(rest, tag_dot(), 0) {
                    assert(rest.subrange(0, 9) =~= s@.subrange(i as int, i + 9));
                }
            }
            assert(rest.skip(1) =~= s@.skip(i + 1));
            out.push(s[i]);
            i += 1;
        }
    }
    assert(out@ + Seq::<char>::empty() =~= out@);
    out
}

/// Replaces every run of two or more periods by the tag, grown until no
/// period follows it.
pub fn hide_dots(s: &Vec<char>) -> (r: Vec<char>)
    ensures
        r@ == hide_dots_spec(s@),
{
    let pat = tag_dot_vec();
    let grown = tag_grown_vec();
    let mut t = tag_runs_exec(s);
    while contains_exec(&t, &pat)
        invariant
            pat@ == tag_dot(),
            grown@ == tag_grown(),
            absorb_all(t@) == hide_dots_spec(s@),
        decreases count_char(t@, '.'),
    {
        proof {
            lemma_absorb_step_count(t@);
        }
        let u = absorb_before_other_exec(&t);
        t = replace_all_exec(&u, &pat, &grown);
    }
    t
}

/// Turns every tag back into the periods it stands for.
pub fn restore_dots(s: &Vec<char>) -> (r: Vec<char>)
    ensures
        r@ == restore_dots_spec(s@),
{
    let pat = tag_dot_vec();
    let grown = tag_grown_vec();
    let mut t = s.clone();
    assert(t@ == s@);
    while contains_exec(&t, &grown)
        invariant
            pat@ == tag_dot(),
            grown@ == tag_grown(),
            unwind(t@) == unwind(s@),
        decreases t@.len(),
    {
        proof {
            lemma_replace_len(t@, tag_grown(), tag_dot());
        }
        t = replace_all_exec(&t, &grown, &pat);
    }
    let dot = vec!['.'];
    assert(dot@ =~= seq!['.']);
    replace_all_exec(&t, &tag_chars(), &dot)
}

} // verus!
