//! JSON text for the data handed to the page's toggle app.

use vstd::prelude::*;

use crate::text::push_char;

verus! {

/// The character of a lowercase hexadecimal digit.
pub open spec fn hex_digit(d: nat) -> char {
    if d < 10 {
        (48 + d) as char
    } else {
        (87 + d) as char
    }
}

/// What one character becomes inside a JSON string literal.
pub open spec fn json_char(c: char) -> Seq<char> {
    if c == '"' {
        seq!['\\', '"']
    } else if c == '\\' {
        seq!['\\', '\\']
    } else if c == '\n' {
        seq!['\\', 'n']
    } else if c == '\r' {
        seq!['\\', 'r']
    } else if c == '\t' {
        seq!['\\', 't']
    } else if c == '\x08' {
        seq!['\\', 'b']
    } else if c == '\x0c' {
        seq!['\\', 'f']
    } else if (c as u32) < 0x20 {
        seq!['\\', 'u', '0', '0', hex_digit((c as u32 / 16) as nat), hex_digit((c as u32 % 16) as nat)]
    } else {
        seq![c]
    }
}

/// The body of a JSON string literal holding `s`.
pub open spec fn json_escaped(s: Seq<char>) -> Seq<char>
    decreases s.len(),
{
    if s.len() == 0 {
        Seq::empty()
    } else {
        json_escaped(s.drop_last()) + json_char(s.last())
    }
}

/// The JSON string literal holding `s`, quotes included.
pub open spec fn json_text(s: Seq<char>) -> Seq<char> {
    seq!['"'] + json_escaped(s) + seq!['"']
}

/// Whether a character is a hexadecimal digit.
pub open spec fn is_hex(c: char) -> bool {
    ||| '0' as int <= c as int <= '9' as int
    ||| 'a' as int <= c as int <= 'f' as int
    ||| 'A' as int <= c as int <= 'F' as int
}

/// The value of a hexadecimal digit character.
pub open spec fn hex_value(c: char) -> int {
    if '0' as int <= c as int <= '9' as int {
        c as int - '0' as int
    } else if 'a' as int <= c as int <= 'f' as int {
        c as int - 'a' as int + 10
    } else {
        c as int - 'A' as int + 10
    }
}

/// `c` in front of what was read from the rest, if the rest could be read.
pub open spec fn read_then(c: char, rest: Option<Seq<char>>) -> Option<Seq<char>> {
    match rest {
        Some(t) => Some(seq![c] + t),
        None => None,
    }
}

/// What a strict JSON reader takes from the body of a string literal, or
/// `None` where the body is not valid JSON: `\"`, `\\`, `\n`, `\r`,
/// `\t`, `\b` and `\f` stand for their characters and `\u` with four
/// hexadecimal digits for the character with that code; any other backslash,
/// a bare `"` (which would end the literal) and a bare control character
/// are refused; every other character stands for itself.
pub open spec fn json_unescaped(e: Seq<char>) -> Option<Seq<char>>
    decreases e.len(),
{
    if e.len() == 0 {
        Some(Seq::empty())
    } else if e[0] == '\\' {
        if e.len() >= 2 && e[1] == '"' {
            read_then('"', json_unescaped(e.skip(2)))
        } else if e.len() >= 2 && e[1] == '\\' {
            read_then('\\', json_unescaped(e.skip(2)))
        } else if e.len() >= 2 && e[1] == 'n' {
            read_then('\n', json_unescaped(e.skip(2)))
        } else if e.len() >= 2 && e[1] == 'r' {
            read_then('\r', json_unescaped(e.skip(2)))
        } else if e.len() >= 2 && e[1] == 't' {
            read_then('\t', json_unescaped(e.skip(2)))
        } else if e.len() >= 2 && e[1] == 'b' {
            read_then('\x08', json_unescaped(e.skip(2)))
        } else if e.len() >= 2 && e[1] == 'f' {
            read_then('\x0c', json_unescaped(e.skip(2)))
        } else if e.len() >= 6 && e[1] == 'u' && is_hex(e[2]) && is_hex(e[3]) && is_hex(e[4]) && is_hex(e[5]) {
            read_then(
                (hex_value(e[2]) * 4096 + hex_value(e[3]) * 256 + hex_value(e[4]) * 16 + hex_value(e[5])) as char,
                json_unescaped(e.skip(6)),
            )
        } else {
            None
        }
    } else if e[0] == '"' || (e[0] as int) < 0x20 {
        None
    } else {
        read_then(e[0], json_unescaped(e.skip(1)))
    }
}

proof fn lemma_json_escaped_front(c: char, r: Seq<char>)
    ensures
        json_escaped(seq![c] + r) == json_char(c) + json_escaped(r),
    decreases r.len(),
{
    let s = seq![c] + r;
    if r.len() == 0 {
        assert(s.drop_last() =~= Seq::<char>::empty());
        assert(s.last() == c);
        assert(json_escaped(s.drop_last()) =~= Seq::<char>::empty());
        assert(json_escaped(s) == json_escaped(s.drop_last()) + json_char(s.last()));
        assert(json_escaped(s) =~= json_char(c));
        assert(json_char(c) + json_escaped(r) =~= json_char(c));
    } else {
        lemma_json_escaped_front(c, r.drop_last());
        assert(s.drop_last() =~= seq![c] + r.drop_last());
        assert(s.last() == r.last());
        assert(json_char(c) + json_escaped(r) =~= (json_char(c) + json_escaped(r.drop_last())) + json_char(r.last()));
    }
}

proof fn lemma_json_unescape_front(c: char, r: Seq<char>)
    ensures
        json_unescaped(json_char(c) + r) == read_then(c, json_unescaped(r)),
{
    let e = json_char(c) + r;
    let k = json_char(c).len() as int;
    assert(e.skip(k) =~= r);
    if c == '"' || c == '\\' || c == '\n' || c == '\r' || c == '\t' || c == '\x08' || c == '\x0c' {
        assert(e[0] == '\\');
        assert(e[1] == json_char(c)[1]);
    } else if (c as u32) < 0x20 {
        let v = c as u32;
        assert(e[0] == '\\' && e[1] == 'u' && e[2] == '0' && e[3] == '0');
        assert(e[4] == hex_digit((v / 16) as nat));
        assert(e[5] == hex_digit((v % 16) as nat));
        assert(is_hex(e[2]) && is_hex(e[3]) && is_hex(e[4]) && is_hex(e[5]));
        assert(hex_value(e[2]) == 0 && hex_value(e[3]) == 0);
        assert(hex_value(e[4]) == v / 16);
        assert(hex_value(e[5]) == v % 16);
        assert((v / 16) * 16 + v % 16 == v) by (nonlinear_arith);
        assert(((v as int) as char) == c);
    } else {
        assert(e[0] == c);
    }
}

/// A strict JSON reader accepts the escaped text and takes back exactly the
/// text that was escaped: reading the body of the string literal
/// `json_text(s)` gives `s`, character for character, and nothing in it
/// ends the literal early.
pub proof fn lemma_json_escape_reads_back(s: Seq<char>)
    ensures
        json_unescaped(json_escaped(s)) == Some(s),
    decreases s.len(),
{
    if s.len() == 0 {
        assert(json_escaped(s) =~= Seq::<char>::empty());
    } else {
        let r = s.drop_first();
        assert(s =~= seq![s[0]] + r);
        lemma_json_escaped_front(s[0], r);
        lemma_json_unescape_front(s[0], json_escaped(r));
        lemma_json_escape_reads_back(r);
    }
}

fn hex_digit_char(d: u32) -> (c: char)
    requires
        d < 16,
    ensures
        c == hex_digit(d as nat),
{
    if d < 10 {
        let b: u8 = 48 + d as u8;
        b as char
    } else {
        let b: u8 = 87 + d as u8;
        b as char
    }
}

/// Appends the JSON string literal holding `s`.
pub fn push_json_text(out: &mut String, s: &str)
    ensures
        final(out)@ == old(out)@ + json_text(s@),
{
    let ghost start = out@;
    push_char(out, '"');
    let mut it = s.chars();
    for c in iter: it
        invariant
            iter.seq() == s@,
            out@ == start + seq!['"'] + json_escaped(s@.take(iter.index() as int)),
    {
        proof {
            assert(s@.take(iter.index() + 1).drop_last() == s@.take(iter.index() as int));
        }
        let ghost before = out@;
        if c == '"' {
            push_char(out, '\\');
            push_char(out, '"');
        } else if c == '\\' {
            push_char(out, '\\');
            push_char(out, '\\');
        } else if c == '\n' {
            push_char(out, '\\');
            push_char(out, 'n');
        } else if c == '\r' {
            push_char(out, '\\');
            push_char(out, 'r');
        } else if c == '\t' {
            push_char(out, '\\');
            push_char(out, 't');
        } else if c == '\x08' {
            push_char(out, '\\');
            push_char(out, 'b');
        } else if c == '\x0c' {
            push_char(out, '\\');
            push_char(out, 'f');
        } else if (c as u32) < 0x20 {
            let v: u32 = c as u32;
            push_char(out, '\\');
            push_char(out, 'u');
            push_char(out, '0');
            push_char(out, '0');
            push_char(out, hex_digit_char(v / 16));
            push_char(out, hex_digit_char(v % 16));
        } else {
            push_char(out, c);
        }
        proof {
            assert(out@ =~= before + json_char(c));
            assert(s@.take(iter.index() + 1).last() == c);
        }
    }
    proof {
        assert(s@.take(s@.len() as int) =~= s@);
    }
    push_char(out, '"');
}

} // verus!
