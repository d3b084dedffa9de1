//! Reading JSON documents made of strings, numbers, lists and objects.

use vstd::prelude::*;
use vstd::string::*;

use crate::json::{escape, escaped, is_control_char, json_text, lemma_unescape_all, unescaped};
use crate::text::{decimal_text, digit, lemma_decimal_digits, padded};

verus! {

/// A JSON value. A number is held as it is written.
pub enum Json {
    Text(Seq<char>),
    Number(Seq<char>),
    List(Seq<Json>),
    Object(Seq<(Seq<char>, Json)>),
}

// ------------------------------------------------------------
// Parts
// ------------------------------------------------------------

/// The characters that may stand between the parts of a document.
pub open spec fn is_space(c: char) -> bool {
    c == ' ' || c == '\n' || c == '\r' || c == '\t'
}

/// `s` from its first character on that is no space.
pub open spec fn skip_space(s: Seq<char>) -> Seq<char>
    decreases s.len(),
{
    if s.len() > 0 && is_space(s[0]) {
        skip_space(s.skip(1))
    } else {
        s
    }
}

/// How many characters stand before the quotation mark that ends a string.
pub open spec fn inside_length(s: Seq<char>) -> nat
    decreases s.len(),
{
    if s.len() == 0 || s[0] == '"' {
        0
    } else if s[0] == '\\' && s.len() >= 2 {
        2 + inside_length(s.skip(2))
    } else {
        1 + inside_length(s.skip(1))
    }
}

/// Reads the string that `s` begins with, and gives what follows it.
pub open spec fn read_text(s: Seq<char>) -> Option<(Seq<char>, Seq<char>)> {
    if s.len() > 0 && s[0] == '"' {
        let n = inside_length(s.skip(1)) as int;
        if n + 1 < s.len() {
            match unescaped(s.subrange(1, n + 1)) {
                Some(text) => Some((text, s.skip(n + 2))),
                None => None,
            }
        } else {
            None
        }
    } else {
        None
    }
}

/// Whether `c` is a decimal digit.
pub open spec fn is_digit(c: char) -> bool {
    '0' <= c <= '9'
}

/// Whether `s` holds digits only.
pub open spec fn all_digits(s: Seq<char>) -> bool {
    forall|i: int| 0 <= i < s.len() ==> is_digit(#[trigger] s[i])
}

/// Whether `s` is a number without a fraction: digits, and no leading zero.
pub open spec fn is_whole(s: Seq<char>) -> bool {
    s.len() > 0 && all_digits(s) && (s.len() == 1 || s[0] != '0')
}

/// Whether `s` is a number with a fraction, the point at position `dot`.
pub open spec fn is_fraction(s: Seq<char>, dot: int) -> bool {
    &&& 0 < dot < s.len() - 1
    &&& s[dot] == '.'
    &&& is_whole(s.take(dot))
    &&& all_digits(s.skip(dot + 1))
}

/// Whether `s` is a number.
pub open spec fn is_number(s: Seq<char>) -> bool {
    is_whole(s) || exists|dot: int| is_fraction(s, dot)
}

/// How many characters of `s` may belong to the number that it begins with.
pub open spec fn number_length(s: Seq<char>) -> nat
    decreases s.len(),
{
    if s.len() > 0 && (is_digit(s[0]) || s[0] == '.') {
        1 + number_length(s.skip(1))
    } else {
        0
    }
}

// ------------------------------------------------------------
// Documents
// ------------------------------------------------------------

/// Reads the value that `s` begins with, and gives what follows it.
#[verifier::opaque]
pub open spec fn read_value(s: Seq<char>) -> Option<(Json, Seq<char>)>
    decreases s.len(), 0nat,
{
    if s.len() == 0 {
        None
    } else if s[0] == '"' {
        match read_text(s) {
            Some((text, rest)) => Some((Json::Text(text), rest)),
            None => None,
        }
    } else if s[0] == '[' {
        let inside = skip_space(s.skip(1));
        if inside.len() >= s.len() || inside.len() == 0 {
            None
        } else if inside[0] == ']' {
            Some((Json::List(Seq::empty()), inside.skip(1)))
        } else {
            match read_items(inside) {
                Some((items, rest)) => Some((Json::List(items), rest)),
                None => None,
            }
        }
    } else if s[0] == '{' {
        let inside = skip_space(s.skip(1));
        if inside.len() >= s.len() || inside.len() == 0 {
            None
        } else if inside[0] == '}' {
            Some((Json::Object(Seq::empty()), inside.skip(1)))
        } else {
            match read_members(inside) {
                Some((members, rest)) => Some((Json::Object(members), rest)),
                None => None,
            }
        }
    } else {
        let n = number_length(s) as int;
        if is_number(s.take(n)) {
            Some((Json::Number(s.take(n)), s.skip(n)))
        } else {
            None
        }
    }
}

/// Reads the items of a list, up to the bracket that ends it.
#[verifier::opaque]
pub open spec fn read_items(s: Seq<char>) -> Option<(Seq<Json>, Seq<char>)>
    decreases s.len(), 1nat,
{
    match read_value(s) {
        Some((item, behind)) => {
            let next = skip_space(behind);
            if next.len() == 0 {
                None
            } else if next[0] == ']' {
                Some((seq![item], next.skip(1)))
            } else if next[0] == ',' {
                let more = skip_space(next.skip(1));
                if more.len() < s.len() {
                    match read_items(more) {
                        Some((items, rest)) => Some((seq![item] + items, rest)),
                        None => None,
                    }
                } else {
                    None
                }
            } else {
                None
            }
        },
        None => None,
    }
}

/// Reads the members of an object, up to the brace that ends it.
#[verifier::opaque]
pub open spec fn read_members(s: Seq<char>) -> Option<(Seq<(Seq<char>, Json)>, Seq<char>)>
    decreases s.len(), 1nat,
{
    match read_text(s) {
        Some((key, behind_key)) => {
            let colon = skip_space(behind_key);
            if colon.len() > 0 && colon[0] == ':' {
                let start = skip_space(colon.skip(1));
                if start.len() < s.len() {
                    match read_value(start) {
                        Some((value, behind)) => {
                            let next = skip_space(behind);
                            if next.len() == 0 {
                                None
                            } else if next[0] == '}' {
                                Some((seq![(key, value)], next.skip(1)))
                            } else if next[0] == ',' {
                                let more = skip_space(next.skip(1));
                                if more.len() < s.len() {
                                    match read_members(more) {
                                        Some((members, rest)) => Some(
                                            (seq![(key, value)] + members, rest),
                                        ),
                                        None => None,
                                    }
                                } else {
                                    None
                                }
                            } else {
                                None
                            }
                        },
                        None => None,
                    }
                } else {
                    None
                }
            } else {
                None
            }
        },
        None => None,
    }
}

/// Reads a whole document: one value, with nothing but spaces around it.
pub open spec fn read_document(s: Seq<char>) -> Option<Json> {
    match read_value(skip_space(s)) {
        Some((value, rest)) => if skip_space(rest).len() == 0 {
            Some(value)
        } else {
            None
        },
        None => None,
    }
}

// ------------------------------------------------------------
// What is written is read
// ------------------------------------------------------------

/// Spaces before a part are passed over.
pub proof fn lemma_skip_space(spaces: Seq<char>, s: Seq<char>)
    requires
        forall|i: int| 0 <= i < spaces.len() ==> is_space(#[trigger] spaces[i]),
        s.len() == 0 || !is_space(s[0]),
    ensures
        skip_space(spaces + s) == s,
    decreases spaces.len(),
{
    if spaces.len() > 0 {
        let rest = spaces.skip(1);
        assert forall|i: int| 0 <= i < rest.len() implies is_space(#[trigger] rest[i]) by {
            assert(is_space(spaces[i + 1]));
        }
        lemma_skip_space(rest, s);
        assert(is_space(spaces[0]));
        assert((spaces + s).skip(1) =~= rest + s);
    } else {
        assert(spaces + s =~= s);
    }
}

proof fn lemma_inside_of_escape(c: char, rest: Seq<char>)
    ensures
        inside_length(escape(c) + rest) == escape(c).len() + inside_length(rest),
{
    let s = escape(c) + rest;
    reveal_with_fuel(inside_length, 7);
    if c == '"' || c == '\\' || c == '\n' || c == '\r' || c == '\t' {
        assert(s.skip(2) =~= rest);
    } else if is_control_char(c) {
        assert(s.skip(2).skip(1).skip(1).skip(1).skip(1) =~= rest);
        let high = s[4];
        let low = s[5];
        assert(high != '"' && high != '\\');
        assert(low != '"' && low != '\\');
    } else {
        assert(s.skip(1) =~= rest);
    }
}

proof fn lemma_inside_length(text: Seq<char>, rest: Seq<char>)
    requires
        rest.len() > 0,
        rest[0] == '"',
    ensures
        inside_length(escaped(text) + rest) == escaped(text).len(),
    decreases text.len(),
{
    if text.len() > 0 {
        lemma_inside_length(text.drop_first(), rest);
        lemma_inside_of_escape(text.first(), escaped(text.drop_first()) + rest);
        assert(escaped(text) + rest =~= escape(text.first()) + (escaped(text.drop_first())
            + rest));
    } else {
        assert(escaped(text) + rest =~= rest);
    }
}

/// A string that was written is read, and nothing behind it is touched.
pub proof fn lemma_read_text(text: Seq<char>, rest: Seq<char>)
    ensures
        read_text(json_text(text) + rest) == Some((text, rest)),
        read_value(json_text(text) + rest) == Some((Json::Text(text), rest)),
{
    reveal(read_value);
    reveal(read_items);
    reveal(read_members);
    let s = json_text(text) + rest;
    let n = escaped(text).len() as int;
    let behind = seq!['"'] + rest;
    lemma_inside_length(text, behind);
    assert(s.skip(1) =~= escaped(text) + behind);
    assert(s.subrange(1, n + 1) =~= escaped(text));
    lemma_unescape_all(text);
    assert(s.skip(n + 2) =~= rest);
}

proof fn lemma_number_length(number: Seq<char>, rest: Seq<char>)
    requires
        forall|i: int|
            0 <= i < number.len() ==> is_digit(#[trigger] number[i]) || number[i] == '.',
        rest.len() > 0,
        !is_digit(rest[0]),
        rest[0] != '.',
    ensures
        number_length(number + rest) == number.len(),
    decreases number.len(),
{
    let s = number + rest;
    if number.len() > 0 {
        let fewer = number.skip(1);
        assert forall|i: int| 0 <= i < fewer.len() implies is_digit(#[trigger] fewer[i])
            || fewer[i] == '.' by {
            assert(fewer[i] == number[i + 1]);
        }
        lemma_number_length(fewer, rest);
        assert(is_digit(number[0]) || number[0] == '.');
        assert(s.skip(1) =~= fewer + rest);
    } else {
        assert(s =~= rest);
    }
}

/// A number that was written is read, and nothing behind it is touched.
pub proof fn lemma_read_number(number: Seq<char>, rest: Seq<char>)
    requires
        is_number(number),
        rest.len() > 0,
        !is_digit(rest[0]),
        rest[0] != '.',
    ensures
        read_value(number + rest) == Some((Json::Number(number), rest)),
        is_digit(number[0]),
{
    reveal(read_value);
    reveal(read_items);
    reveal(read_members);
    let s = number + rest;
    assert forall|i: int| 0 <= i < number.len() implies is_digit(#[trigger] number[i]) || number[i]
        == '.' by {
        if !is_whole(number) {
            let dot = choose|dot: int| is_fraction(number, dot);
            if i < dot {
                assert(number.take(dot)[i] == number[i]);
            } else if i > dot {
                assert(number.skip(dot + 1)[i - dot - 1] == number[i]);
            }
        }
    }
    assert(is_digit(number[0])) by {
        if !is_whole(number) {
            let dot = choose|dot: int| is_fraction(number, dot);
            assert(number.take(dot)[0] == number[0]);
        }
    }
    lemma_number_length(number, rest);
    assert(s.take(number.len() as int) =~= number);
    assert(s.skip(number.len() as int) =~= rest);
}

/// The digits of a number are a number.
pub proof fn lemma_decimal_is_whole(n: nat)
    ensures
        is_whole(decimal_text(n)),
    decreases n,
{
    assert(all_digits(decimal_text(n))) by {
        assert forall|i: int| 0 <= i < decimal_text(n).len() implies is_digit(
            #[trigger] decimal_text(n)[i],
        ) by {
            lemma_decimal_digits(n, i);
        }
    }
    if n >= 10 {
        let front = decimal_text(n / 10);
        lemma_decimal_is_whole(n / 10);
        assert(decimal_text(n)[0] == front[0]);
        if n / 10 < 10 {
            assert(front[0] == digit(n / 10));
        } else {
            reveal_with_fuel(decimal_text, 2);
        }
    }
}

/// Digits with leading zeros are digits.
pub proof fn lemma_padded_digits(n: nat, width: nat)
    ensures
        all_digits(padded(n, width)),
        padded(n, width).len() == width,
    decreases width,
{
    if width > 0 {
        lemma_padded_digits(n / 10, (width - 1) as nat);
    }
}

/// A member of an object, as it is written.
pub open spec fn member_text(key: Seq<char>, value: Seq<char>) -> Seq<char> {
    json_text(key) + seq![':', ' '] + value
}

proof fn lemma_read_key(key: Seq<char>, value: Seq<char>)
    requires
        value.len() > 0,
        !is_space(value[0]),
    ensures
        read_text(member_text(key, value)) == Some((key, seq![':', ' '] + value)),
        skip_space(seq![':', ' '] + value) == seq![':', ' '] + value,
        skip_space((seq![':', ' '] + value).skip(1)) == value,
        value.len() < member_text(key, value).len(),
{
    let colon = seq![':', ' '] + value;
    assert(member_text(key, value) =~= json_text(key) + colon);
    lemma_read_text(key, colon);
    assert(colon.skip(1) =~= seq![' '] + value);
    lemma_skip_space(seq![' '], value);
}

/// The last member of an object is read.
pub proof fn lemma_read_last_member(
    key: Seq<char>,
    value: Seq<char>,
    read: Json,
    behind: Seq<char>,
    rest: Seq<char>,
)
    requires
        value.len() > 0,
        !is_space(value[0]),
        read_value(value) == Some((read, behind)),
        skip_space(behind) == seq!['}'] + rest,
    ensures
        read_members(member_text(key, value)) == Some((seq![(key, read)], rest)),
{
    reveal(read_value);
    reveal(read_items);
    reveal(read_members);
    lemma_read_key(key, value);
    assert((seq!['}'] + rest).skip(1) =~= rest);
}

/// A member of an object is read, and the members behind it are read on.
pub proof fn lemma_read_member(
    key: Seq<char>,
    value: Seq<char>,
    read: Json,
    spaces: Seq<char>,
    more: Seq<char>,
    members: Seq<(Seq<char>, Json)>,
    rest: Seq<char>,
)
    requires
        value.len() > 0,
        !is_space(value[0]),
        read_value(value) == Some((read, seq![','] + spaces + more)),
        forall|i: int| 0 <= i < spaces.len() ==> is_space(#[trigger] spaces[i]),
        more.len() > 0,
        !is_space(more[0]),
        more.len() < value.len(),
        read_members(more) == Some((members, rest)),
    ensures
        read_members(member_text(key, value)) == Some((seq![(key, read)] + members, rest)),
{
    reveal(read_value);
    reveal(read_items);
    reveal(read_members);
    lemma_read_key(key, value);
    let behind = seq![','] + spaces + more;
    assert(skip_space(behind) == behind);
    assert(behind.skip(1) =~= spaces + more);
    lemma_skip_space(spaces, more);
}

/// An object is read, given its members.
pub proof fn lemma_read_object(
    spaces: Seq<char>,
    inside: Seq<char>,
    members: Seq<(Seq<char>, Json)>,
    rest: Seq<char>,
)
    requires
        forall|i: int| 0 <= i < spaces.len() ==> is_space(#[trigger] spaces[i]),
        inside.len() > 0,
        inside[0] == '"',
        read_members(inside) == Some((members, rest)),
    ensures
        read_value(seq!['{'] + spaces + inside) == Some((Json::Object(members), rest)),
{
    reveal(read_value);
    reveal(read_items);
    reveal(read_members);
    let s = seq!['{'] + spaces + inside;
    assert(s.skip(1) =~= spaces + inside);
    lemma_skip_space(spaces, inside);
}

/// An empty list is read.
pub proof fn lemma_read_empty_list(spaces: Seq<char>, rest: Seq<char>)
    requires
        forall|i: int| 0 <= i < spaces.len() ==> is_space(#[trigger] spaces[i]),
    ensures
        read_value(seq!['['] + spaces + (seq![']'] + rest)) == Some(
            (Json::List(Seq::empty()), rest),
        ),
{
    reveal(read_value);
    reveal(read_items);
    reveal(read_members);
    let inside = seq![']'] + rest;
    let s = seq!['['] + spaces + inside;
    assert(s.skip(1) =~= spaces + inside);
    lemma_skip_space(spaces, inside);
    assert(inside.skip(1) =~= rest);
}

/// A list is read, given its items.
pub proof fn lemma_read_list(
    spaces: Seq<char>,
    inside: Seq<char>,
    items: Seq<Json>,
    rest: Seq<char>,
)
    requires
        forall|i: int| 0 <= i < spaces.len() ==> is_space(#[trigger] spaces[i]),
        inside.len() > 0,
        inside[0] == '{',
        read_items(inside) == Some((items, rest)),
    ensures
        read_value(seq!['['] + spaces + inside) == Some((Json::List(items), rest)),
{
    reveal(read_value);
    reveal(read_items);
    reveal(read_members);
    let s = seq!['['] + spaces + inside;
    assert(s.skip(1) =~= spaces + inside);
    lemma_skip_space(spaces, inside);
}

/// The last item of a list is read.
pub proof fn lemma_read_last_item(
    item: Seq<char>,
    read: Json,
    behind: Seq<char>,
    rest: Seq<char>,
)
    requires
        read_value(item) == Some((read, behind)),
        skip_space(behind) == seq![']'] + rest,
    ensures
        read_items(item) == Some((seq![read], rest)),
{
    reveal(read_value);
    reveal(read_items);
    reveal(read_members);
    assert((seq![']'] + rest).skip(1) =~= rest);
}

/// An item of a list is read, and the items behind it are read on.
pub proof fn lemma_read_item(
    item: Seq<char>,
    read: Json,
    spaces: Seq<char>,
    more: Seq<char>,
    items: Seq<Json>,
    rest: Seq<char>,
)
    requires
        read_value(item) == Some((read, seq![','] + spaces + more)),
        forall|i: int| 0 <= i < spaces.len() ==> is_space(#[trigger] spaces[i]),
        more.len() > 0,
        !is_space(more[0]),
        more.len() < item.len(),
        read_items(more) == Some((items, rest)),
    ensures
        read_items(item) == Some((seq![read] + items, rest)),
{
    reveal(read_value);
    reveal(read_items);
    reveal(read_members);
    let behind = seq![','] + spaces + more;
    assert(skip_space(behind) == behind);
    assert(behind.skip(1) =~= spaces + more);
    lemma_skip_space(spaces, more);
}

/// A text without characters that are escaped stands for itself in a JSON string.
pub proof fn lemma_plain_text(text: Seq<char>)
    requires
        forall|i: int| 0 <= i < text.len() ==> 'A' <= #[trigger] text[i] <= 'z' && text[i] != '\\'
            || text[i] == ' ',
    ensures
        json_text(text) == seq!['"'] + text + seq!['"'],
{
    lemma_plain_escaped(text);
    assert(json_text(text) =~= seq!['"'] + text + seq!['"']);
}

proof fn lemma_plain_escaped(text: Seq<char>)
    requires
        forall|i: int| 0 <= i < text.len() ==> 'A' <= #[trigger] text[i] <= 'z' && text[i] != '\\'
            || text[i] == ' ',
    ensures
        escaped(text) == text,
    decreases text.len(),
{
    if text.len() > 0 {
        let rest = text.drop_first();
        assert forall|i: int| 0 <= i < rest.len() implies 'A' <= #[trigger] rest[i] <= 'z'
            && rest[i] != '\\' || rest[i] == ' ' by {
            assert(rest[i] == text[i + 1]);
        }
        lemma_plain_escaped(rest);
        assert(escape(text[0]) =~= seq![text[0]]);
        assert(seq![text[0]] + rest =~= text);
    } else {
        assert(escaped(text) =~= text);
    }
}

} // verus!
