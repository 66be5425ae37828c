//! Whitespace normalization of one line.

use vstd::prelude::*;
use crate::text::{is_space, space};

verus! {

/// The words of `s` joined by single spaces, scanning from a state where
/// `started` says a word was already emitted and `pending` says whitespace
/// followed it.
pub open spec fn collapse_from(s: Seq<char>, started: bool, pending: bool) -> Seq<char>
    decreases s.len(),
{
    if s.len() == 0 {
        Seq::empty()
    } else if is_space(s[0]) {
        collapse_from(s.skip(1), started, started)
    } else if pending {
        seq![' ', s[0]] + collapse_from(s.skip(1), true, false)
    } else {
        seq![s[0]] + collapse_from(s.skip(1), true, false)
    }
}

/// Every maximal run of whitespace becomes one ASCII space; leading and
/// trailing whitespace is removed.
pub open spec fn collapse(s: Seq<char>) -> Seq<char> {
    collapse_from(s, false, false)
}

/// `s` without the characters whose code point is at most 31.
pub open spec fn drop_controls(s: Seq<char>) -> Seq<char>
    decreases s.len(),
{
    if s.len() == 0 {
        s
    } else if (s[0] as u32) <= 31 {
        drop_controls(s.skip(1))
    } else {
        seq![s[0]] + drop_controls(s.skip(1))
    }
}

/// A line with its whitespace collapsed, padded by one space on each side,
/// and its control characters dropped.
pub open spec fn normalize_spec(s: Seq<char>) -> Seq<char> {
    drop_controls(seq![' '] + collapse(s) + seq![' '])
}

pub fn collapse_whitespace(s: &Vec<char>) -> (r: Vec<char>)
    ensures
        r@ == collapse(s@),
{
    let mut out: Vec<char> = Vec::new();
    let mut started = false;
    let mut pending = false;
    let mut i: usize = 0;
    assert(s@.skip(0) =~= s@);
    while i < s.len()
        invariant
            i <= s@.len(),
            collapse(s@) == out@ + collapse_from(s@.skip(i as int), started, pending),
        decreases s@.len() - i,
    {
        let c = s[i];
        let ghost rest = s@.skip(i as int);
        assert(rest.skip(1) =~= s@.skip(i + 1));
        if space(c) {
            pending = started;
        } else {
            if pending {
                out.push(' ');
            }
            out.push(c);
            started = true;
            pending = false;
        }
        i += 1;
    }
    assert(out@ + Seq::<char>::empty() =~= out@);
    out
}

pub fn remove_controls(s: &Vec<char>) -> (r: Vec<char>)
    ensures
        r@ == drop_controls(s@),
{
    let mut out: Vec<char> = Vec::new();
    let mut i: usize = 0;
    assert(s@.skip(0) =~= s@);
    while i < s.len()
        invariant
            i <= s@.len(),
            drop_controls(s@) == out@ + drop_controls(s@.skip(i as int)),
        decreases s@.len() - i,
    {
        let c = s[i];
        assert(s@.skip(i as int).skip(1) =~= s@.skip(i + 1));
        if (c as u32) > 31 {
            out.push(c);
        }
        i += 1;
    }
    assert(out@ + Seq::<char>::empty() =~= out@);
    out
}

/// Collapses whitespace, pads the line with a space on each side and drops
/// control characters.
pub fn normalize(s: &Vec<char>) -> (r: Vec<char>)
    ensures
        r@ == normalize_spec(s@),
{
    let words = collapse_whitespace(s);
    let mut padded: Vec<char> = Vec::new();
    padded.push(' ');
    crate::text::push_all(&mut padded, &words);
    padded.push(' ');
    assert(padded@ =~= seq![' '] + collapse(s@) + seq![' ']);
    remove_controls(&padded)
}

/// Whitespace at the end of a line changes nothing of its words.
pub proof fn lemma_collapse_space_end(s: Seq<char>, c: char, started: bool, pending: bool)
    requires
        is_space(c),
    ensures
        collapse_from(s + seq![c], started, pending) == collapse_from(s, started, pending),
    decreases s.len(),
{
    if s.len() == 0 {
        assert(s + seq![c] =~= seq![c]);
        assert(seq![c].skip(1) =~= Seq::<char>::empty());
        assert(collapse_from(seq![c], started, pending) == collapse_from(
            Seq::<char>::empty(),
            started,
            started,
        ));
    } else {
        assert((s + seq![c]).skip(1) =~= s.skip(1) + seq![c]);
        assert((s + seq![c])[0] == s[0]);
        lemma_collapse_space_end(s.skip(1), c, started, started);
        lemma_collapse_space_end(s.skip(1), c, true, false);
    }
}

} // verus!
