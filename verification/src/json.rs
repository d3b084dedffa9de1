//! JSON strings.

use vstd::prelude::*;
use vstd::string::*;

use crate::text::chars_of;

verus! {

/// The Unicode control characters.
pub open spec fn is_control_char(c: char) -> bool {
    c <= '\u{1f}' || '\u{7f}' <= c <= '\u{9f}'
}

/// The hexadecimal digit of a number below sixteen.
pub open spec fn hex_digit(n: nat) -> char {
    if n < 10 {
        ('0' as int + n) as char
    } else {
        ('a' as int + n - 10) as char
    }
}

/// Whether `c` is a hexadecimal digit in lower case.
pub open spec fn is_hex_digit(c: char) -> bool {
    '0' <= c <= '9' || 'a' <= c <= 'f'
}

/// The number of a hexadecimal digit.
pub open spec fn hex_value(c: char) -> nat {
    if c <= '9' {
        (c as int - '0' as int) as nat
    } else {
        (c as int - 'a' as int + 10) as nat
    }
}

/// How a character stands inside a JSON string.
pub open spec fn escape(c: char) -> Seq<char> {
    if c == '"' {
        seq!['\\', '"']
    } else if c == '\\' {
        seq!['\\', '\\']
    } else if c == '\n' {
        seq!['\\', 'n']
    } else if c == '\r' {
        seq!['\\', 'r']
    } else if c == '\t' {
        seq!['\\', 't']
    } else if is_control_char(c) {
        seq!['\\', 'u', '0', '0', hex_digit(c as nat / 16), hex_digit(c as nat % 16)]
    } else {
        seq![c]
    }
}

/// How a text stands inside a JSON string.
pub open spec fn escaped(s: Seq<char>) -> Seq<char>
    decreases s.len(),
{
    if s.len() == 0 {
        Seq::empty()
    } else {
        escape(s.first()) + escaped(s.drop_first())
    }
}

/// The JSON string of a text.
pub open spec fn json_text(s: Seq<char>) -> Seq<char> {
    (seq!['"'] + escaped(s)).push('"')
}

/// What a reader makes of the inside of a JSON string. A quotation mark or a control
/// character that stands for itself is no valid inside, and neither is an escape that is
/// none of those that `escape` writes.
pub open spec fn unescaped(s: Seq<char>) -> Option<Seq<char>>
    decreases s.len(),
{
    if s.len() == 0 {
        Some(Seq::empty())
    } else if s[0] == '"' || is_control_char(s[0]) {
        None
    } else if s[0] != '\\' {
        match unescaped(s.skip(1)) {
            Some(rest) => Some(seq![s[0]] + rest),
            None => None,
        }
    } else if s.len() >= 2 && (s[1] == '"' || s[1] == '\\' || s[1] == 'n' || s[1] == 'r' || s[1]
        == 't') {
        let c = if s[1] == 'n' {
            '\n'
        } else if s[1] == 'r' {
            '\r'
        } else if s[1] == 't' {
            '\t'
        } else {
            s[1]
        };
        match unescaped(s.skip(2)) {
            Some(rest) => Some(seq![c] + rest),
            None => None,
        }
    } else if s.len() >= 6 && s[1] == 'u' && s[2] == '0' && s[3] == '0' && is_hex_digit(s[4])
        && is_hex_digit(s[5]) {
        let c = (hex_value(s[4]) * 16 + hex_value(s[5])) as char;
        match unescaped(s.skip(6)) {
            Some(rest) => Some(seq![c] + rest),
            None => None,
        }
    } else {
        None
    }
}

/// What a reader makes of a JSON string.
pub open spec fn json_read(s: Seq<char>) -> Option<Seq<char>> {
    if s.len() >= 2 && s.first() == '"' && s.last() == '"' {
        unescaped(s.subrange(1, s.len() - 1))
    } else {
        None
    }
}

fn hex_char(n: u8) -> (r: char)
    requires
        n < 16,
    ensures
        r == hex_digit(n as nat),
{
    if n < 10 {
        (48u8 + n) as char
    } else {
        (97u8 + (n - 10)) as char
    }
}

fn push_escaped(output: &mut String, c: char)
    ensures
        final(output)@ == old(output)@ + escape(c),
{
    if c == '"' {
        output.push('\\');
        output.push('"');
    } else if c == '\\' {
        output.push('\\');
        output.push('\\');
    } else if c == '\n' {
        output.push('\\');
        output.push('n');
    } else if c == '\r' {
        output.push('\\');
        output.push('r');
    } else if c == '\t' {
        output.push('\\');
        output.push('t');
    } else if c <= '\u{1f}' || ('\u{7f}' <= c && c <= '\u{9f}') {
        let code: u8 = (c as u32) as u8;
        output.push('\\');
        output.push('u');
        output.push('0');
        output.push('0');
        output.push(hex_char(code / 16));
        output.push(hex_char(code % 16));
    } else {
        output.push(c);
    }
    assert(output@ =~= old(output)@ + escape(c));
}

/// The JSON string of `value`, in quotation marks.
pub fn json_string(value: &str) -> (r: String)
    ensures
        r@ == json_text(value@),
{
    let chars = chars_of(value);
    let mut output = String::new();
    output.push('"');
    assert(value@.skip(0) =~= value@);
    assert(output@ =~= seq!['"']);
    for i in 0..chars.len()
        invariant
            chars@ == value@,
            output@ + escaped(value@.skip(i as int)) == seq!['"'] + escaped(value@),
    {
        let ghost before = output@;
        push_escaped(&mut output, chars[i]);
        proof {
            let rest = value@.skip(i as int);
            assert(rest.drop_first() =~= value@.skip(i + 1));
            assert(output@ + escaped(value@.skip(i + 1)) =~= before + (escape(rest.first())
                + escaped(rest.drop_first())));
        }
    }
    assert(value@.skip(value@.len() as int) =~= Seq::empty());
    assert(output@ =~= seq!['"'] + escaped(value@));
    output.push('"');
    output
}

proof fn lemma_unescape_one(c: char, rest: Seq<char>)
    ensures
        unescaped(escape(c) + rest) == match unescaped(rest) {
            Some(r) => Some(seq![c] + r),
            None => None,
        },
{
    let s = escape(c) + rest;
    assert(s.skip(escape(c).len() as int) =~= rest);
    if is_control_char(c) {
        assert(hex_value(hex_digit(c as nat / 16)) == c as nat / 16);
        assert(hex_value(hex_digit(c as nat % 16)) == c as nat % 16);
    }
}

/// Reading the inside of a JSON string gives back the text that it was made of.
pub proof fn lemma_unescape_all(s: Seq<char>)
    ensures
        unescaped(escaped(s)) == Some(s),
    decreases s.len(),
{
    if s.len() > 0 {
        lemma_unescape_all(s.drop_first());
        lemma_unescape_one(s.first(), escaped(s.drop_first()));
        assert(seq![s.first()] + s.drop_first() =~= s);
    } else {
        assert(s =~= Seq::empty());
    }
}

/// Reading a JSON string gives back the text that it was made of. In particular every
/// quotation mark and control character of the text is escaped, and no two texts have the
/// same JSON string.
pub proof fn lemma_json_string_reads_back(s: Seq<char>)
    ensures
        json_read(json_text(s)) == Some(s),
{
    lemma_unescape_all(s);
    let t = json_text(s);
    assert(t.subrange(1, t.len() - 1) =~= escaped(s));
}

} // verus!
