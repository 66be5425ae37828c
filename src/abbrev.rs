//! The decision whether a period that ends a word ends the sentence, or
//! belongs to an abbreviation.

use vstd::prelude::*;
use crate::text::{alpha, ascii_digit, contains_seq, is_alpha, is_lower, is_space, lower, space};
use crate::moses::{lines, strip_return};

verus! {

/// How a non-breaking prefix keeps its period.
#[derive(Debug, PartialEq, Eq, Structural, Clone, Copy)]
pub enum PrefixType {
    /// The period always stays, as in `Mr.`.
    Always,
    /// The period stays only before a word that starts with a digit, as in `No. 5`.
    NumericOnly,
}

/// A language's non-breaking prefixes: words whose trailing period need not
/// end a sentence. A later entry for the same prefix replaces an earlier one.
pub struct NonbreakingPrefixes {
    entries: Vec<(Vec<char>, PrefixType)>,
}

pub open spec fn prefix_map(e: Seq<(Vec<char>, PrefixType)>, n: int) -> Map<Seq<char>, PrefixType>
    decreases n,
{
    if n <= 0 {
        Map::empty()
    } else {
        prefix_map(e, n - 1).insert(e[n - 1].0@, e[n - 1].1)
    }
}

pub open spec fn kind_in(m: Map<Seq<char>, PrefixType>, key: Seq<char>) -> Option<PrefixType> {
    if m.contains_key(key) {
        Some(m[key])
    } else {
        None
    }
}

fn same_chars(a: &Vec<char>, b: &Vec<char>) -> (r: bool)
    ensures
        r == (a@ == b@),
{
    if a.len() != b.len() {
        return false;
    }
    let mut i: usize = 0;
    while i < a.len()
        invariant
            a@.len() == b@.len(),
            i <= a@.len(),
            forall|k: int| 0 <= k < i ==> a@[k] == b@[k],
        decreases a@.len() - i,
    {
        if a[i] != b[i] {
            return false;
        }
        i += 1;
    }
    assert(a@ =~= b@);
    true
}

impl View for NonbreakingPrefixes {
    type V = Map<Seq<char>, PrefixType>;

    closed spec fn view(&self) -> Map<Seq<char>, PrefixType> {
        prefix_map(self.entries@, self.entries@.len() as int)
    }
}

impl NonbreakingPrefixes {
    /// A dictionary without entries.
    pub fn new() -> (r: Self)
        ensures
            r@ == Map::<Seq<char>, PrefixType>::empty(),
    {
        NonbreakingPrefixes { entries: Vec::new() }
    }

    /// Records `prefix` (a word without its trailing period) with its kind.
    pub fn insert(&mut self, prefix: &str, kind: PrefixType)
        ensures
            final(self)@ == old(self)@.insert(prefix@, kind),
    {
        let key = crate::text::chars_of(prefix);
        self.insert_chars(key, kind);
    }

    fn insert_chars(&mut self, key: Vec<char>, kind: PrefixType)
        ensures
            final(self)@ == old(self)@.insert(key@, kind),
    {
        let ghost k = key@;
        self.entries.push((key, kind));
        proof {
            let e = self.entries@;
            let n = e.len() as int;
            lemma_prefix_map_take(e, old(self).entries@, n - 1);
            assert(e[n - 1].0@ == k);
        }
    }

    /// Adds the entries of a prefix list: one prefix per line, the line's
    /// first word; a line that also holds `#NUMERIC_ONLY#` gives a prefix
    /// kept only before numbers. Empty lines, lines that start with
    /// whitespace and comment lines, which start with `#`, add nothing.
    pub fn add_prefix_list(&mut self, text: &str)
        ensures
            final(self)@ == load_lines(old(self)@, lines(text@)),
    {
        let s = crate::text::chars_of(text);
        let marker = crate::text::chars_of("#NUMERIC_ONLY#");
        proof {
            reveal_strlit("#NUMERIC_ONLY#");
            assert(marker@ =~= numeric_only_marker());
        }
        let n = s.len();
        let mut i: usize = 0;
        assert(s@.skip(0) =~= s@);
        while i < n
            invariant
                n == s@.len(),
                i <= n,
                marker@ == numeric_only_marker(),
                load_lines(old(self)@, lines(s@)) == load_lines(self@, lines(s@.skip(i as int))),
            decreases n - i,
        {
            let ghost rest = s@.skip(i as int);
            let mut line: Vec<char> = Vec::new();
            let mut j: usize = i;
            while j < n && s[j] != '\n'
                invariant
                    n == s@.len(),
                    i <= j <= n,
                    forall|k: int| i <= k < j ==> s@[k] != '\n',
                    line@ == s@.subrange(i as int, j as int),
                decreases n - j,
            {
                line.push(s[j]);
                j += 1;
                assert(s@.subrange(i as int, j as int) =~= s@.subrange(i as int, j - 1) + seq![s@[j - 1]]);
            }
            proof {
                crate::moses::lemma_line_len(rest, j - i);
                assert(rest.take(j - i) =~= line@);
            }
            let ghost raw = line@;
            let ln = line.len();
            if j < n && ln > 0 && line[ln - 1] == '\r' {
                line.pop();
            }
            assert(j < n ==> line@ =~= strip_return(raw));
            assert(j == n ==> line@ =~= raw);
            let ghost before = self@;
            self.add_prefix_line(&line, &marker);
            if j < n {
                proof {
                    assert(rest.skip(j - i + 1) =~= s@.skip(j + 1));
                    assert(lines(rest) =~= seq![line@] + lines(s@.skip(j + 1)));
                    assert(lines(rest).skip(1) =~= lines(s@.skip(j + 1)));
                }
                i = j + 1;
            } else {
                proof {
                    assert(rest =~= rest.take(j - i));
                    assert(line@ == rest);
                    assert(s@.skip(j as int) =~= Seq::<char>::empty());
                    assert(lines(rest) =~= seq![line@]);
                    assert(lines(rest).skip(1) =~= Seq::<Seq<char>>::empty());
                }
                i = j;
            }
        }
        assert(s@.skip(i as int) =~= Seq::<char>::empty());
    }

    fn add_prefix_line(&mut self, line: &Vec<char>, marker: &Vec<char>)
        requires
            marker@ == numeric_only_marker(),
        ensures
            final(self)@ == add_line(old(self)@, line@),
    {
        let n = line.len();
        if n == 0 || line[0] == '#' {
            return;
        }
        let mut k: usize = 0;
        while k < n && !space(line[k])
            invariant
                n == line@.len(),
                k <= n,
                forall|j: int| 0 <= j < k ==> !is_space(line@[j]),
            decreases n - k,
        {
            k += 1;
        }
        proof {
            lemma_word_len(line@, k as int);
        }
        if k == 0 {
            return;
        }
        let mut key: Vec<char> = Vec::new();
        let mut tail: Vec<char> = Vec::new();
        let mut j: usize = 0;
        while j < n
            invariant
                n == line@.len(),
                k <= n,
                j <= n,
                key@ == line@.take(if j < k { j as int } else { k as int }),
                tail@ == line@.subrange(k as int, if j < k { k as int } else { j as int }),
            decreases n - j,
        {
            if j < k {
                key.push(line[j]);
                assert(line@.take(j + 1) =~= line@.take(j as int) + seq![line@[j as int]]);
            } else {
                tail.push(line[j]);
                assert(line@.subrange(k as int, j + 1) =~= line@.subrange(k as int, j as int) + seq![line@[j as int]]);
            }
            j += 1;
        }
        assert(tail@ =~= line@.skip(k as int));
        let kind = if crate::text::contains_exec(&tail, marker) {
            PrefixType::NumericOnly
        } else {
            PrefixType::Always
        };
        self.insert_chars(key, kind);
    }

    /// The kind recorded for `key`, if any.
    pub fn get(&self, key: &Vec<char>) -> (r: Option<PrefixType>)
        ensures
            r == kind_in(self@, key@),
    {
        let mut i = self.entries.len();
        while i > 0
            invariant
                i <= self.entries@.len(),
                kind_in(prefix_map(self.entries@, i as int), key@) == kind_in(self@, key@),
            decreases i,
        {
            if same_chars(&self.entries[i - 1].0, key) {
                return Some(self.entries[i - 1].1);
            }
            i -= 1;
        }
        None
    }
}

proof fn lemma_prefix_map_take(
    e: Seq<(Vec<char>, PrefixType)>,
    f: Seq<(Vec<char>, PrefixType)>,
    k: int,
)
    requires
        0 <= k <= f.len(),
        k <= e.len(),
        forall|j: int| 0 <= j < k ==> e[j] == f[j],
    ensures
        prefix_map(e, k) == prefix_map(f, k),
    decreases k,
{
    if k > 0 {
        lemma_prefix_map_take(e, f, k - 1);
    }
}

pub open spec fn numeric_only_marker() -> Seq<char> {
    seq!['#', 'N', 'U', 'M', 'E', 'R', 'I', 'C', '_', 'O', 'N', 'L', 'Y', '#']
}

/// The entry a line of a prefix list gives, if any.
pub open spec fn prefix_line(l: Seq<char>) -> Option<(Seq<char>, PrefixType)> {
    let k = word_len(l);
    if l.len() == 0 || l[0] == '#' || k == 0 {
        None
    } else if contains_seq(l.skip(k as int), numeric_only_marker()) {
        Some((l.take(k as int), PrefixType::NumericOnly))
    } else {
        Some((l.take(k as int), PrefixType::Always))
    }
}

pub open spec fn add_line(m: Map<Seq<char>, PrefixType>, l: Seq<char>) -> Map<Seq<char>, PrefixType> {
    match prefix_line(l) {
        Some(e) => m.insert(e.0, e.1),
        None => m,
    }
}

/// The dictionary after the entries of the lines, in order.
pub open spec fn load_lines(m: Map<Seq<char>, PrefixType>, ls: Seq<Seq<char>>) -> Map<Seq<char>, PrefixType>
    decreases ls.len(),
{
    if ls.len() == 0 {
        m
    } else {
        load_lines(add_line(m, ls[0]), ls.skip(1))
    }
}

/// The number of characters before the first whitespace.
pub open spec fn word_len(s: Seq<char>) -> nat
    decreases s.len(),
{
    if s.len() == 0 || is_space(s[0]) {
        0
    } else {
        1 + word_len(s.skip(1))
    }
}

/// The maximal runs of characters other than whitespace, in order.
pub open spec fn words(s: Seq<char>) -> Seq<Seq<char>>
    decreases s.len(),
{
    if s.len() == 0 {
        Seq::empty()
    } else if is_space(s[0]) {
        words(s.skip(1))
    } else {
        let k = word_len(s);
        if 0 < k <= s.len() {
            seq![s.take(k as int)] + words(s.skip(k as int))
        } else {
            Seq::empty()
        }
    }
}

/// The pieces joined by single spaces.
pub open spec fn join(ts: Seq<Seq<char>>) -> Seq<char>
    decreases ts.len(),
{
    if ts.len() == 0 {
        Seq::empty()
    } else if ts.len() == 1 {
        ts[0]
    } else {
        join(ts.drop_last()) + seq![' '] + ts.last()
    }
}

pub open spec fn has_inner_dot_and_letter(pre: Seq<char>) -> bool {
    (exists|j: int| 0 <= j < pre.len() && pre[j] == '.') && (exists|j: int|
        0 <= j < pre.len() && is_alpha(#[trigger] pre[j]))
}

/// Whether the period of `pre.` stays attached when `next` follows.
pub open spec fn keeps_period(
    pre: Seq<char>,
    next: Seq<char>,
    dict: Map<Seq<char>, PrefixType>,
) -> bool {
    has_inner_dot_and_letter(pre) || kind_in(dict, pre) == Some(PrefixType::Always) || (next.len()
        > 0 && is_lower(next[0])) || (kind_in(dict, pre) == Some(PrefixType::NumericOnly)
        && next.len() > 0 && ascii_digit(next[0]))
}

/// The word at `i` with its final period split off where it ends a sentence.
pub open spec fn resolve_word(ws: Seq<Seq<char>>, i: int, dict: Map<Seq<char>, PrefixType>) -> Seq<
    char,
> {
    let w = ws[i];
    if w.len() >= 2 && w.last() == '.' {
        if i == ws.len() - 1 || !keeps_period(w.drop_last(), ws[i + 1], dict) {
            w.drop_last() + seq![' ', '.']
        } else {
            w
        }
    } else {
        w
    }
}

pub open spec fn resolve_words(ws: Seq<Seq<char>>, dict: Map<Seq<char>, PrefixType>) -> Seq<
    Seq<char>,
> {
    Seq::new(ws.len(), |i: int| resolve_word(ws, i, dict))
}

/// A period and apostrophe that end the text are split apart.
pub open spec fn split_final_quote(s: Seq<char>) -> Seq<char> {
    let n = s.len() as int;
    if n >= 3 && s[n - 3] == '.' && s[n - 2] == '\'' && s[n - 1] == ' ' {
        s.take(n - 3) + seq!['.', ' ', '\'', ' ']
    } else if n >= 2 && s[n - 2] == '.' && s[n - 1] == '\'' {
        s.take(n - 2) + seq!['.', ' ', '\'', ' ']
    } else {
        s
    }
}

/// The words of the text, each sentence-final period split off, joined by
/// single spaces.
pub open spec fn resolve_periods_spec(s: Seq<char>, dict: Map<Seq<char>, PrefixType>) -> Seq<char> {
    split_final_quote(join(resolve_words(words(s), dict)))
}

pub open spec fn views(v: Seq<Vec<char>>) -> Seq<Seq<char>> {
    v.map_values(|w: Vec<char>| w@)
}

pub(crate) proof fn lemma_word_len(s: Seq<char>, k: int)
    requires
        0 <= k <= s.len(),
        forall|j: int| 0 <= j < k ==> !is_space(s[j]),
        k == s.len() || is_space(s[k]),
    ensures
        word_len(s) == k,
    decreases k,
{
    if k > 0 {
        lemma_word_len(s.skip(1), k - 1);
    }
}

/// Splits the text at whitespace.
pub fn split_words(s: &Vec<char>) -> (r: Vec<Vec<char>>)
    ensures
        views(r@) == words(s@),
{
    let n = s.len();
    let mut out: Vec<Vec<char>> = Vec::new();
    let mut i: usize = 0;
    assert(s@.skip(0) =~= s@);
    assert(views(out@) + words(s@) =~= words(s@));
    while i < n
        invariant
            n == s@.len(),
            i <= n,
            words(s@) == views(out@) + words(s@.skip(i as int)),
        decreases n - i,
    {
        let ghost rest = s@.skip(i as int);
        if space(s[i]) {
            assert(rest.skip(1) =~= s@.skip(i + 1));
            i += 1;
        } else {
            let mut w: Vec<char> = Vec::new();
            let mut j: usize = i;
            while j < n && !space(s[j])
                invariant
                    n == s@.len(),
                    i <= j <= n,
                    forall|k: int| i <= k < j ==> !is_space(s@[k]),
                    w@ == s@.subrange(i as int, j as int),
                decreases n - j,
            {
                w.push(s[j]);
                j += 1;
                assert(s@.subrange(i as int, j as int) =~= s@.subrange(i as int, j - 1) + seq![
                    s@[j - 1],
                ]);
            }
            proof {
                lemma_word_len(rest, j - i);
                assert(rest.take(j - i) =~= w@);
                assert(rest.skip(j - i) =~= s@.skip(j as int));
            }
            let ghost old_out = out@;
            out.push(w);
            assert(views(out@) =~= views(old_out) + seq![w@]);
            assert(views(out@) + words(s@.skip(j as int)) =~= views(old_out) + (seq![w@] + words(
                s@.skip(j as int),
            )));
            i = j;
        }
    }
    assert(s@.skip(i as int) =~= Seq::<char>::empty());
    assert(views(out@) + Seq::<Seq<char>>::empty() =~= views(out@));
    out
}

fn inner_dot_and_letter(pre: &Vec<char>, n: usize) -> (r: bool)
    requires
        n <= pre@.len(),
    ensures
        r == has_inner_dot_and_letter(pre@.take(n as int)),
{
    let ghost p = pre@.take(n as int);
    let mut dot = false;
    let mut has_alpha = false;
    let mut i: usize = 0;
    while i < n
        invariant
            n <= pre@.len(),
            p == pre@.take(n as int),
            i <= n,
            dot == (exists|j: int| 0 <= j < i && p[j] == '.'),
            has_alpha == (exists|j: int| 0 <= j < i && is_alpha(#[trigger] p[j])),
        decreases n - i,
    {
        let c = pre[i];
        assert(p[i as int] == c);
        if c == '.' {
            dot = true;
        }
        if alpha(c) {
            has_alpha = true;
        }
        i += 1;
    }
    dot && has_alpha
}

fn resolve_word_exec(
    ws: &Vec<Vec<char>>,
    i: usize,
    dict: &NonbreakingPrefixes,
) -> (r: Vec<char>)
    requires
        i < ws@.len(),
    ensures
        r@ == resolve_word(views(ws@), i as int, dict@),
{
    let ghost vs = views(ws@);
    let w = &ws[i];
    let n = w.len();
    assert(vs[i as int] == w@);
    if n >= 2 && w[n - 1] == '.' {
        let mut pre: Vec<char> = Vec::new();
        let mut k: usize = 0;
        while k < n - 1
            invariant
                n == w@.len(),
                k <= n - 1,
                pre@ == w@.take(k as int),
            decreases n - 1 - k,
        {
            pre.push(w[k]);
            k += 1;
            assert(w@.take(k as int) =~= w@.take(k - 1) + seq![w@[k - 1]]);
        }
        assert(pre@ =~= w@.drop_last());
        let split = if i == ws.len() - 1 {
            true
        } else {
            let next = &ws[i + 1];
            assert(vs[i + 1] == next@);
            let kind = dict.get(&pre);
            let next_lower = next.len() > 0 && lower(next[0]);
            let next_digit = next.len() > 0 && '0' <= next[0] && next[0] <= '9';
            let keep = inner_dot_and_letter(w, n - 1) || kind == Some(PrefixType::Always)
                || next_lower || (kind == Some(PrefixType::NumericOnly) && next_digit);
            !keep
        };
        if split {
            pre.push(' ');
            pre.push('.');
            pre
        } else {
            w.clone()
        }
    } else {
        w.clone()
    }
}

/// Splits off each sentence-final period, keeping those of abbreviations.
pub fn resolve_periods(s: &Vec<char>, dict: &NonbreakingPrefixes) -> (r: Vec<char>)
    ensures
        r@ == resolve_periods_spec(s@, dict@),
{
    let ws = split_words(s);
    let ghost rs = resolve_words(views(ws@), dict@);
    let mut out: Vec<char> = Vec::new();
    let mut i: usize = 0;
    while i < ws.len()
        invariant
            i <= ws@.len(),
            rs == resolve_words(views(ws@), dict@),
            out@ == join(rs.take(i as int)),
        decreases ws@.len() - i,
    {
        let piece = resolve_word_exec(&ws, i, dict);
        assert(rs.take(i + 1).drop_last() =~= rs.take(i as int));
        if i > 0 {
            out.push(' ');
        } else {
            assert(rs.take(1) =~= seq![rs[0]]);
        }
        crate::text::push_all(&mut out, &piece);
        i += 1;
    }
    assert(rs.take(i as int) =~= rs);
    assert(join(rs) == join(resolve_words(words(s@), dict@)));
    split_final_quote_exec(out)
}

fn split_final_quote_exec(s: Vec<char>) -> (r: Vec<char>)
    ensures
        r@ == split_final_quote(s@),
{
    let n = s.len();
    let cut = if n >= 3 && s[n - 3] == '.' && s[n - 2] == '\'' && s[n - 1] == ' ' {
        3
    } else if n >= 2 && s[n - 2] == '.' && s[n - 1] == '\'' {
        2
    } else {
        0
    };
    if cut == 0 {
        return s;
    }
    let mut out: Vec<char> = Vec::new();
    let mut k: usize = 0;
    while k < n - cut
        invariant
            n == s@.len(),
            cut <= n,
            k <= n - cut,
            out@ == s@.take(k as int),
        decreases n - cut - k,
    {
        out.push(s[k]);
        k += 1;
        assert(s@.take(k as int) =~= s@.take(k - 1) + seq![s@[k - 1]]);
    }
    out.push('.');
    out.push(' ');
    out.push('\'');
    out.push(' ');
    assert(out@ =~= s@.take(n - cut) + seq!['.', ' ', '\'', ' ']);
    out
}

} // verus!
