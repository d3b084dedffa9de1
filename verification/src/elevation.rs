//! Restarting with administrator rights: the command line that is handed on, its wide
//! form, and what the answer of the system means.

use vstd::prelude::*;
use vstd::string::*;

use crate::text::{chars_of, decimal, decimal_text};

verus! {

// ------------------------------------------------------------
// The command line
// ------------------------------------------------------------

/// Whether an argument has to be quoted for this character.
pub open spec fn needs_quotes(c: char) -> bool {
    c == ' ' || c == '\t' || c == '"'
}

/// `s` with a backslash before each quotation mark.
pub open spec fn quotes_escaped(s: Seq<char>) -> Seq<char>
    decreases s.len(),
{
    if s.len() == 0 {
        Seq::empty()
    } else if s.first() == '"' {
        seq!['\\', '"'] + quotes_escaped(s.drop_first())
    } else {
        seq![s.first()] + quotes_escaped(s.drop_first())
    }
}

/// An argument as it stands in a command line.
pub open spec fn quoted(s: Seq<char>) -> Seq<char> {
    if exists|i: int| 0 <= i < s.len() && needs_quotes(#[trigger] s[i]) {
        (seq!['"'] + quotes_escaped(s)).push('"')
    } else {
        s
    }
}

/// Texts in a row, with a space between each two.
pub open spec fn spaced(parts: Seq<Seq<char>>) -> Seq<char>
    decreases parts.len(),
{
    if parts.len() == 0 {
        Seq::empty()
    } else if parts.len() == 1 {
        parts[0]
    } else {
        spaced(parts.drop_last()).push(' ') + parts.last()
    }
}

/// The command line made of the arguments `args`.
pub open spec fn command_line(args: Seq<String>) -> Seq<char> {
    spaced(args.map_values(|a: String| quoted(a@)))
}

fn quote(argument: &str) -> (r: String)
    ensures
        r@ == quoted(argument@),
{
    let chars = chars_of(argument);
    let mut special: bool = false;
    for i in 0..chars.len()
        invariant
            chars@ == argument@,
            special == (exists|k: int| 0 <= k < i && needs_quotes(#[trigger] argument@[k])),
    {
        if chars[i] == ' ' || chars[i] == '\t' || chars[i] == '"' {
            assert(needs_quotes(argument@[i as int]));
            special = true;
        }
    }
    if !special {
        return argument.to_owned();
    }
    let mut r = String::new();
    r.push('"');
    assert(argument@.skip(0) =~= argument@);
    assert(r@ =~= seq!['"']);
    for i in 0..chars.len()
        invariant
            chars@ == argument@,
            r@ + quotes_escaped(argument@.skip(i as int)) == seq!['"'] + quotes_escaped(argument@),
    {
        let ghost before = r@;
        if chars[i] == '"' {
            r.push('\\');
        }
        r.push(chars[i]);
        proof {
            let rest = argument@.skip(i as int);
            assert(rest.drop_first() =~= argument@.skip(i + 1));
            assert(r@ + quotes_escaped(argument@.skip(i + 1)) =~= before + quotes_escaped(rest));
        }
    }
    assert(argument@.skip(argument@.len() as int) =~= Seq::empty());
    assert(r@ =~= seq!['"'] + quotes_escaped(argument@));
    r.push('"');
    r
}

/// The command line made of `args`.
pub fn quote_windows_arguments(args: &Vec<String>) -> (r: String)
    ensures
        r@ == command_line(args@),
{
    let mut r = String::new();
    let ghost parts = args@.map_values(|a: String| quoted(a@));
    assert(parts.take(0) =~= Seq::empty());
    for i in 0..args.len()
        invariant
            parts == args@.map_values(|a: String| quoted(a@)),
            r@ == spaced(parts.take(i as int)),
    {
        let part = quote(args[i].as_str());
        if i > 0 {
            r.push(' ');
        }
        r.append(part.as_str());
        proof {
            let row = parts.take(i + 1);
            assert(row.drop_last() =~= parts.take(i as int));
            assert(row.last() == parts[i as int]);
            if i == 0 {
                assert(r@ =~= parts[0]);
            }
        }
    }
    assert(parts.take(parts.len() as int) =~= parts);
    r
}

/// `s` with each backslash before a quotation mark removed.
pub open spec fn quotes_unescaped(s: Seq<char>) -> Seq<char>
    decreases s.len(),
{
    if s.len() == 0 {
        Seq::empty()
    } else if s.len() >= 2 && s[0] == '\\' && s[1] == '"' {
        seq!['"'] + quotes_unescaped(s.skip(2))
    } else {
        seq![s[0]] + quotes_unescaped(s.skip(1))
    }
}

/// The argument that a part of a command line stands for.
pub open spec fn unquoted(s: Seq<char>) -> Seq<char> {
    if s.len() >= 2 && s.first() == '"' && s.last() == '"' {
        quotes_unescaped(s.subrange(1, s.len() - 1))
    } else {
        s
    }
}

proof fn lemma_quotes_read_back(s: Seq<char>)
    ensures
        quotes_unescaped(quotes_escaped(s)) == s,
        quotes_escaped(s).len() > 0 ==> quotes_escaped(s)[0] != '"',
    decreases s.len(),
{
    if s.len() == 0 {
        assert(s =~= Seq::empty());
    } else {
        let rest = s.drop_first();
        lemma_quotes_read_back(rest);
        let e = quotes_escaped(s);
        if s.first() == '"' {
            assert(e.skip(2) =~= quotes_escaped(rest));
        } else {
            assert(e.skip(1) =~= quotes_escaped(rest));
        }
        assert(seq![s.first()] + rest =~= s);
    }
}

/// Quoting loses nothing: an argument reads back from its part of the command line.
pub proof fn lemma_quoted_reads_back(s: Seq<char>)
    ensures
        unquoted(quoted(s)) == s,
{
    if exists|i: int| 0 <= i < s.len() && needs_quotes(#[trigger] s[i]) {
        lemma_quotes_read_back(s);
        let q = quoted(s);
        assert(q.subrange(1, q.len() - 1) =~= quotes_escaped(s));
    } else if s.len() >= 2 {
        assert(!needs_quotes(s[0]));
    }
}

// ------------------------------------------------------------
// Wide strings
// ------------------------------------------------------------

/// A character in UTF-16: one unit, or a pair of surrogates.
pub open spec fn utf16_units(c: char) -> Seq<u16> {
    let code = c as nat;
    if code < 0x10000 {
        seq![code as u16]
    } else {
        let rest = (code - 0x10000) as nat;
        seq![(0xd800 + rest / 0x400) as u16, (0xdc00 + rest % 0x400) as u16]
    }
}

/// A text in UTF-16.
pub open spec fn utf16(s: Seq<char>) -> Seq<u16>
    decreases s.len(),
{
    if s.len() == 0 {
        Seq::empty()
    } else {
        utf16_units(s.first()) + utf16(s.drop_first())
    }
}

fn push_units(r: &mut Vec<u16>, c: char)
    ensures
        final(r)@ == old(r)@ + utf16_units(c),
{
    let code: u32 = c as u32;
    if code < 0x10000 {
        r.push(code as u16);
    } else {
        let rest: u32 = code - 0x10000;
        r.push((0xd800 + rest / 0x400) as u16);
        r.push((0xdc00 + rest % 0x400) as u16);
    }
    assert(r@ =~= old(r)@ + utf16_units(c));
}

/// `value` in UTF-16, with a zero behind it.
pub fn wide(value: &str) -> (r: Vec<u16>)
    ensures
        r@ == utf16(value@).push(0),
{
    let chars = chars_of(value);
    let mut r: Vec<u16> = Vec::new();
    assert(value@.skip(0) =~= value@);
    assert(r@ + utf16(value@) =~= utf16(value@));
    for i in 0..chars.len()
        invariant
            chars@ == value@,
            r@ + utf16(value@.skip(i as int)) == utf16(value@),
    {
        let ghost before = r@;
        push_units(&mut r, chars[i]);
        proof {
            let tail = value@.skip(i as int);
            assert(tail.drop_first() =~= value@.skip(i + 1));
            assert(r@ + utf16(value@.skip(i + 1)) =~= before + utf16(tail));
        }
    }
    assert(value@.skip(value@.len() as int) =~= Seq::empty());
    assert(r@ =~= utf16(value@));
    r.push(0);
    r
}

/// The text that UTF-16 units stand for.
pub open spec fn utf16_read(s: Seq<u16>) -> Seq<char>
    decreases s.len(),
{
    if s.len() == 0 {
        Seq::empty()
    } else if s.len() >= 2 && 0xd800 <= s[0] < 0xdc00 {
        seq![(0x10000 + (s[0] - 0xd800) * 0x400 + (s[1] - 0xdc00)) as char] + utf16_read(s.skip(2))
    } else {
        seq![s[0] as char] + utf16_read(s.skip(1))
    }
}

proof fn lemma_units_read_back(c: char, rest: Seq<u16>)
    ensures
        utf16_read(utf16_units(c) + rest) == seq![c] + utf16_read(rest),
{
    let w = utf16_units(c) + rest;
    assert(w.skip(utf16_units(c).len() as int) =~= rest);
    assert(!(0xd800 <= c as int <= 0xdfff));
    if c as nat >= 0x10000 {
        let code = (c as nat - 0x10000) as nat;
        assert(code / 0x400 < 0x400);
        assert(w[0] == 0xd800 + code / 0x400);
        assert(w[1] == 0xdc00 + code % 0x400);
        assert((0x10000 + (w[0] - 0xd800) * 0x400 + (w[1] - 0xdc00)) as char == c);
    } else {
        assert(w[0] == c as int);
        assert(w[0] as char == c);
    }
}

/// The wide form of a text reads back.
pub proof fn lemma_utf16_reads_back(s: Seq<char>)
    ensures
        utf16_read(utf16(s)) == s,
    decreases s.len(),
{
    if s.len() == 0 {
        assert(s =~= Seq::empty());
    } else {
        let rest = s.drop_first();
        lemma_utf16_reads_back(rest);
        lemma_units_read_back(s.first(), utf16(rest));
        assert(seq![s.first()] + rest =~= s);
    }
}

// ------------------------------------------------------------
// The answer of the system
// ------------------------------------------------------------

/// An integer in decimal digits, with a minus sign where it is negative.
pub open spec fn signed_text(n: int) -> Seq<char> {
    if n < 0 {
        seq!['-'] + decimal_text((-n) as nat)
    } else {
        decimal_text(n as nat)
    }
}

fn signed(n: i64) -> (r: String)
    ensures
        r@ == signed_text(n as int),
{
    if n >= 0 {
        return decimal(n as u64);
    }
    let mut r = String::new();
    r.push('-');
    let size: u64 = (-(n + 1)) as u64 + 1;
    let digits = decimal(size);
    r.append(digits.as_str());
    assert(r@ =~= signed_text(n as int));
    r
}

/// What follows from the code with which the system answered the request to restart
/// with administrator rights: above 32 the restarted program takes over and this one
/// ends; otherwise the request failed.
pub fn elevation_outcome(code: i64) -> (r: Result<bool, String>)
    ensures
        code > 32 ==> r == Ok::<bool, String>(false),
        code <= 32 ==> r is Err && r->Err_0@ == "Windows UAC elevation failed. Return code: "@
            + signed_text(code as int),
{
    if code <= 32 {
        let mut text = "Windows UAC elevation failed. Return code: ".to_owned();
        let number = signed(code);
        text.append(number.as_str());
        return Err(text);
    }
    Ok(false)
}

} // verus!
