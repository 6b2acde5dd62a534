//! Character-level text building: HTML escaping and joining messages.

use vstd::prelude::*;

verus! {

/// Appends one character to a `String` (std's `String::push`).
#[verifier::external_body]
pub(crate) fn push_char(s: &mut String, c: char)
    ensures
        final(s)@ == old(s)@.push(c),
{
    s.push(c);
}

/// What one character becomes in HTML-escaped text.
pub open spec fn escape_char(c: char) -> Seq<char> {
    if c == '&' {
        seq!['&', 'a', 'm', 'p', ';']
    } else if c == '<' {
        seq!['&', 'l', 't', ';']
    } else if c == '>' {
        seq!['&', 'g', 't', ';']
    } else if c == '"' {
        seq!['&', 'q', 'u', 'o', 't', ';']
    } else {
        seq![c]
    }
}

/// The HTML-escaped form of a text: each character replaced by `escape_char`.
pub open spec fn html_escaped(s: Seq<char>) -> Seq<char>
    decreases s.len(),
{
    if s.len() == 0 {
        Seq::empty()
    } else {
        html_escaped(s.drop_last()) + escape_char(s.last())
    }
}

/// Escape text for safe interpolation into HTML element content and
/// double-quoted attribute values.
pub fn html_escape(s: &str) -> (out: String)
    ensures
        out@ == html_escaped(s@),
{
    let mut out = String::new();
    let mut it = s.chars();
    for c in iter: it
        invariant
            iter.seq() == s@,
            out@ == html_escaped(s@.take(iter.index() as int)),
    {
        proof {
            assert(s@.take(iter.index() + 1).drop_last() == s@.take(iter.index() as int));
        }
        if c == '&' {
            proof { reveal_strlit("&amp;"); }
            out.append("&amp;");
        } else if c == '<' {
            proof { reveal_strlit("&lt;"); }
            out.append("&lt;");
        } else if c == '>' {
            proof { reveal_strlit("&gt;"); }
            out.append("&gt;");
        } else if c == '"' {
            proof { reveal_strlit("&quot;"); }
            out.append("&quot;");
        } else {
            push_char(&mut out, c);
        }
    }
    proof {
        assert(s@.take(s@.len() as int) == s@);
    }
    out
}

/// Escaped text holds no character that could open a tag or close an
/// attribute value: no `<`, no `>` and no `"`.
pub proof fn lemma_escaped_is_inert(s: Seq<char>)
    ensures
        forall|i: int| 0 <= i < html_escaped(s).len() ==> {
            let c = #[trigger] html_escaped(s)[i];
            c != '<' && c != '>' && c != '"'
        },
    decreases s.len(),
{
    if s.len() > 0 {
        lemma_escaped_is_inert(s.drop_last());
        let p = html_escaped(s.drop_last());
        let e = escape_char(s.last());
        assert forall|i: int| 0 <= i < html_escaped(s).len() implies {
            let c = #[trigger] html_escaped(s)[i];
            c != '<' && c != '>' && c != '"'
        } by {
            if i < p.len() {
                assert(html_escaped(s)[i] == p[i]);
            } else {
                assert(html_escaped(s)[i] == e[i - p.len()]);
            }
        }
    }
}

/// Whether `c` can open or close a tag or an attribute value.
pub open spec fn is_markup_char(c: char) -> bool {
    c == '<' || c == '>' || c == '"'
}

/// How many times the character `c` occurs in a text.
pub open spec fn char_count(s: Seq<char>, c: char) -> nat
    decreases s.len(),
{
    if s.len() == 0 {
        0
    } else {
        char_count(s.drop_last(), c) + if s.last() == c {
            1nat
        } else {
            0nat
        }
    }
}

/// Occurrences of a character in two texts put together add up.
pub proof fn lemma_char_count_add(a: Seq<char>, b: Seq<char>, c: char)
    ensures
        char_count(a + b, c) == char_count(a, c) + char_count(b, c),
    decreases b.len(),
{
    if b.len() == 0 {
        assert(a + b =~= a);
    } else {
        lemma_char_count_add(a, b.drop_last(), c);
        assert((a + b).drop_last() =~= a + b.drop_last());
        assert((a + b).last() == b.last());
    }
}

/// Escaped text holds no `<`, no `>` and no `"`.
pub proof fn lemma_escaped_markup_free(s: Seq<char>, c: char)
    requires
        is_markup_char(c),
    ensures
        char_count(html_escaped(s), c) == 0,
{
    lemma_escaped_is_inert(s);
    lemma_absent_counts_zero(html_escaped(s), c);
}

proof fn lemma_absent_counts_zero(t: Seq<char>, c: char)
    requires
        forall|i: int| 0 <= i < t.len() ==> #[trigger] t[i] != c,
    ensures
        char_count(t, c) == 0,
    decreases t.len(),
{
    if t.len() > 0 {
        let init = t.drop_last();
        assert forall|i: int| 0 <= i < init.len() implies #[trigger] init[i] != c by {
            assert(init[i] == t[i]);
        }
        lemma_absent_counts_zero(init, c);
        assert(t.last() == t[t.len() - 1]);
    }
}

/// Escaping a text that starts with `c` starts with the escape of `c`.
proof fn lemma_escaped_front(c: char, r: Seq<char>)
    ensures
        html_escaped(seq![c] + r) == escape_char(c) + html_escaped(r),
    decreases r.len(),
{
    let s = seq![c] + r;
    assert(s.len() > 0);
    if r.len() == 0 {
        assert(s.drop_last() =~= Seq::<char>::empty());
        assert(s.last() == c);
        assert(html_escaped(s) == html_escaped(s.drop_last()) + escape_char(c));
        assert(html_escaped(s) =~= escape_char(c));
        assert(escape_char(c) + html_escaped(r) =~= escape_char(c));
    } else {
        lemma_escaped_front(c, r.drop_last());
        assert(s.drop_last() =~= seq![c] + r.drop_last());
        assert(s.last() == r.last());
        assert(html_escaped(s) == html_escaped(s.drop_last()) + escape_char(s.last()));
        assert(escape_char(c) + html_escaped(r) =~= (escape_char(c) + html_escaped(r.drop_last())) + escape_char(r.last()));
    }
}

proof fn lemma_escaped_len(s: Seq<char>)
    ensures
        html_escaped(s).len() >= s.len(),
    decreases s.len(),
{
    if s.len() > 0 {
        lemma_escaped_len(s.drop_last());
    }
}

/// Escaping loses nothing: different texts have different escapes.
pub proof fn lemma_escape_injective(a: Seq<char>, b: Seq<char>)
    requires
        html_escaped(a) == html_escaped(b),
    ensures
        a == b,
    decreases a.len(),
{
    lemma_escaped_len(a);
    lemma_escaped_len(b);
    if a.len() == 0 || b.len() == 0 {
        if a.len() == 0 && b.len() == 0 {
            assert(a =~= b);
        } else if a.len() == 0 {
            assert(html_escaped(a).len() == 0);
        } else {
            assert(html_escaped(b).len() == 0);
        }
    } else {
        let x = a[0];
        let y = b[0];
        assert(a =~= seq![x] + a.drop_first());
        assert(b =~= seq![y] + b.drop_first());
        lemma_escaped_front(x, a.drop_first());
        lemma_escaped_front(y, b.drop_first());
        let ex = escape_char(x);
        let ey = escape_char(y);
        let e = html_escaped(a);
        assert(e[0] == ex[0]);
        assert(e[0] == ey[0]);
        if ex.len() > 1 && ey.len() > 1 {
            assert(e[1] == ex[1]);
            assert(e[1] == ey[1]);
        }
        assert(x == y);
        assert(e.subrange(ex.len() as int, e.len() as int) =~= html_escaped(a.drop_first()));
        assert(e.subrange(ey.len() as int, e.len() as int) =~= html_escaped(b.drop_first()));
        lemma_escape_injective(a.drop_first(), b.drop_first());
    }
}

/// What a browser reads back from HTML text: each of the entities `&amp;`,
/// `&lt;`, `&gt;` and `&quot;` stands for its character, and any other
/// character stands for itself.
pub open spec fn html_unescaped(e: Seq<char>) -> Seq<char>
    decreases e.len(),
{
    if e.len() == 0 {
        Seq::empty()
    } else if e.len() >= 5 && e.take(5) == seq!['&', 'a', 'm', 'p', ';'] {
        seq!['&'] + html_unescaped(e.skip(5))
    } else if e.len() >= 4 && e.take(4) == seq!['&', 'l', 't', ';'] {
        seq!['<'] + html_unescaped(e.skip(4))
    } else if e.len() >= 4 && e.take(4) == seq!['&', 'g', 't', ';'] {
        seq!['>'] + html_unescaped(e.skip(4))
    } else if e.len() >= 6 && e.take(6) == seq!['&', 'q', 'u', 'o', 't', ';'] {
        seq!['"'] + html_unescaped(e.skip(6))
    } else {
        seq![e[0]] + html_unescaped(e.skip(1))
    }
}

proof fn lemma_unescape_front(c: char, r: Seq<char>)
    ensures
        html_unescaped(escape_char(c) + r) == seq![c] + html_unescaped(r),
{
    let e = escape_char(c) + r;
    let k = escape_char(c).len() as int;
    assert(e.skip(k) =~= r);
    assert(e.take(k) =~= escape_char(c));
    if c == '&' {
    } else if c == '<' {
        assert(e[1] == 'l');
        assert(e.len() >= 5 ==> e.take(5)[1] != seq!['&', 'a', 'm', 'p', ';'][1]);
    } else if c == '>' {
        assert(e[1] == 'g');
        assert(e.len() >= 5 ==> e.take(5)[1] != seq!['&', 'a', 'm', 'p', ';'][1]);
        assert(e.take(4)[1] != seq!['&', 'l', 't', ';'][1]);
    } else if c == '"' {
        assert(e[1] == 'q');
        assert(e.take(5)[1] != seq!['&', 'a', 'm', 'p', ';'][1]);
        assert(e.take(4)[1] != seq!['&', 'l', 't', ';'][1]);
        assert(e.take(4)[1] != seq!['&', 'g', 't', ';'][1]);
    } else {
        assert(e[0] == c);
        assert(e.len() >= 5 ==> e.take(5)[0] != seq!['&', 'a', 'm', 'p', ';'][0]);
        assert(e.len() >= 4 ==> e.take(4)[0] != seq!['&', 'l', 't', ';'][0]);
        assert(e.len() >= 4 ==> e.take(4)[0] != seq!['&', 'g', 't', ';'][0]);
        assert(e.len() >= 6 ==> e.take(6)[0] != seq!['&', 'q', 'u', 'o', 't', ';'][0]);
    }
}

/// Escaping is read back exactly: a browser reading the escaped text gets
/// the original text, character for character.
pub proof fn lemma_html_escape_reads_back(s: Seq<char>)
    ensures
        html_unescaped(html_escaped(s)) == s,
    decreases s.len(),
{
    if s.len() == 0 {
        assert(html_escaped(s) =~= Seq::<char>::empty());
    } else {
        let r = s.drop_first();
        assert(s =~= seq![s[0]] + r);
        lemma_escaped_front(s[0], r);
        lemma_unescape_front(s[0], html_escaped(r));
        lemma_html_escape_reads_back(r);
    }
}

/// Messages joined by a separator.
pub open spec fn joined(parts: Seq<Seq<char>>, sep: Seq<char>) -> Seq<char>
    decreases parts.len(),
{
    if parts.len() == 0 {
        Seq::empty()
    } else if parts.len() == 1 {
        parts[0]
    } else {
        joined(parts.drop_last(), sep) + sep + parts.last()
    }
}

/// Joining the first `i + 1` parts adds the separator and part `i` to the
/// join of the first `i` (or is part 0 alone).
pub proof fn lemma_joined_take(parts: Seq<Seq<char>>, sep: Seq<char>, i: int)
    requires
        0 <= i < parts.len(),
    ensures
        joined(parts.take(i + 1), sep) == if i == 0 {
            parts[0]
        } else {
            joined(parts.take(i), sep) + sep + parts[i]
        },
{
    assert(parts.take(i + 1).drop_last() =~= parts.take(i));
    assert(parts.take(i + 1).last() == parts[i]);
}

/// Format an error message and the messages of its chain of causes,
/// outermost first, as "msg: cause: deeper-cause".
pub fn error_chain(messages: &Vec<String>) -> (out: String)
    ensures
        out@ == joined(messages@.map_values(|m: String| m@), ": "@),
{
    let ghost parts = messages@.map_values(|m: String| m@);
    let mut out = String::new();
    let mut i: usize = 0;
    while i < messages.len()
        invariant
            i <= messages.len(),
            parts == messages@.map_values(|m: String| m@),
            out@ == joined(parts.take(i as int), ": "@),
        decreases messages.len() - i,
    {
        proof {
            lemma_joined_take(parts, ": "@, i as int);
        }
        if i > 0 {
            out.append(": ");
        }
        out.append(messages[i].as_str());
        assert(out@ =~= joined(parts.take(i + 1), ": "@));
        i = i + 1;
    }
    proof {
        assert(parts.take(messages.len() as int) == parts);
    }
    out
}

} // verus!
