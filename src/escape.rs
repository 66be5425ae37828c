//! Escaping of the characters that are special to markup and to factored
//! corpora.

use vstd::prelude::*;

verus! {

/// The entity that stands for `c`, or `c` itself.
pub open spec fn entity(c: char) -> Seq<char> {
    if c == '&' {
        seq!['&', 'a', 'm', 'p', ';']
    } else if c == '|' {
        seq!['&', '#', '1', '2', '4', ';']
    } else if c == '<' {
        seq!['&', 'l', 't', ';']
    } else if c == '>' {
        seq!['&', 'g', 't', ';']
    } else if c == '\'' {
        seq!['&', 'a', 'p', 'o', 's', ';']
    } else if c == '"' {
        seq!['&', 'q', 'u', 'o', 't', ';']
    } else if c == '[' {
        seq!['&', '#', '9', '1', ';']
    } else if c == ']' {
        seq!['&', '#', '9', '3', ';']
    } else {
        seq![c]
    }
}

/// The characters that never appear unescaped in escaped text.
pub open spec fn is_markup(c: char) -> bool {
    c == '|' || c == '<' || c == '>' || c == '\'' || c == '"' || c == '[' || c == ']'
}

/// Each character replaced by its entity.
pub open spec fn escape_spec(s: Seq<char>) -> Seq<char>
    decreases s.len(),
{
    if s.len() == 0 {
        s
    } else {
        entity(s[0]) + escape_spec(s.skip(1))
    }
}

fn push_entity(out: &mut Vec<char>, c: char)
    ensures
        final(out)@ == old(out)@ + entity(c),
{
    let e: Vec<char> = if c == '&' {
        vec!['&', 'a', 'm', 'p', ';']
    } else if c == '|' {
        vec!['&', '#', '1', '2', '4', ';']
    } else if c == '<' {
        vec!['&', 'l', 't', ';']
    } else if c == '>' {
        vec!['&', 'g', 't', ';']
    } else if c == '\'' {
        vec!['&', 'a', 'p', 'o', 's', ';']
    } else if c == '"' {
        vec!['&', 'q', 'u', 'o', 't', ';']
    } else if c == '[' {
        vec!['&', '#', '9', '1', ';']
    } else if c == ']' {
        vec!['&', '#', '9', '3', ';']
    } else {
        vec![c]
    };
    assert(e@ =~= entity(c));
    crate::text::push_all(out, &e);
}

/// Replaces `&`, `|`, `<`, `>`, `'`, `"`, `[` and `]` by their entities.
pub fn escape(s: &Vec<char>) -> (r: Vec<char>)
    ensures
        r@ == escape_spec(s@),
{
    let mut out: Vec<char> = Vec::new();
    let mut i: usize = 0;
    assert(s@.skip(0) =~= s@);
    while i < s.len()
        invariant
            i <= s@.len(),
            escape_spec(s@) == out@ + escape_spec(s@.skip(i as int)),
        decreases s@.len() - i,
    {
        assert(s@.skip(i as int).skip(1) =~= s@.skip(i + 1));
        let ghost before = out@;
        push_entity(&mut out, s[i]);
        assert(before + escape_spec(s@.skip(i as int)) =~= out@ + escape_spec(s@.skip(i + 1)));
        i += 1;
    }
    assert(out@ + Seq::<char>::empty() =~= out@);
    out
}

/// Escaped text holds none of `|`, `<`, `>`, `'`, `"`, `[`, `]`, and every
/// character of the source stands as exactly its entity, so that an `&` of
/// the source is escaped once and an entity's own `&` is never escaped again.
pub proof fn escaped_text_has_no_markup(s: Seq<char>)
    ensures
        forall|i: int| 0 <= i < escape_spec(s).len() ==> !is_markup(#[trigger] escape_spec(s)[i]),
        s.len() > 0 ==> escape_spec(s) == entity(s[0]) + escape_spec(s.skip(1)),
    decreases s.len(),
{
    if s.len() > 0 {
        escaped_text_has_no_markup(s.skip(1));
        let e = entity(s[0]);
        let rest = escape_spec(s.skip(1));
        assert forall|i: int| 0 <= i < e.len() implies !is_markup(#[trigger] e[i]) by {
        }
        assert forall|i: int| 0 <= i < escape_spec(s).len() implies !is_markup(
            #[trigger] escape_spec(s)[i],
        ) by {
            if i < e.len() {
                assert(escape_spec(s)[i] == e[i]);
            } else {
                assert(escape_spec(s)[i] == rest[i - e.len()]);
            }
        }
    }
}

pub proof fn lemma_escape_concat(a: Seq<char>, b: Seq<char>)
    ensures
        escape_spec(a + b) == escape_spec(a) + escape_spec(b),
    decreases a.len(),
{
    if a.len() == 0 {
        assert(a + b =~= b);
        assert(escape_spec(a) + escape_spec(b) =~= escape_spec(b));
    } else {
        assert((a + b).skip(1) =~= a.skip(1) + b);
        lemma_escape_concat(a.skip(1), b);
        assert(entity(a[0]) + (escape_spec(a.skip(1)) + escape_spec(b)) =~= (entity(a[0]) + escape_spec(
            a.skip(1),
        )) + escape_spec(b));
    }
}

} // verus!
