//! Laws of texts: their order, their parts and their ends.

use vstd::prelude::*;

use crate::text::{ascii_lower, is_ascii_text, is_white_space, lowercase, occurs, occurs_at};
use crate::text::{lemma_text_lt_irreflexive, lemma_text_lt_total, lemma_text_lt_transitive};
use crate::text::{text_lt, trimmed, unicode_lowercase};

verus! {

/// The first place where two texts differ decides on their order.
pub proof fn lemma_first_difference_decides(a: Seq<char>, b: Seq<char>, p: int)
    requires
        0 <= p < a.len(),
        p < b.len(),
        forall|q: int| 0 <= q < p ==> #[trigger] a[q] == b[q],
        a[p] != b[p],
    ensures
        text_lt(a, b) <==> a[p] < b[p],
    decreases p,
{
    if p > 0 {
        let x = a.drop_first();
        let y = b.drop_first();
        assert(a[0] == b[0]);
        assert forall|q: int| 0 <= q < p - 1 implies #[trigger] x[q] == y[q] by {
            assert(a[q + 1] == b[q + 1]);
        }
        lemma_first_difference_decides(x, y, p - 1);
    }
}

/// A text comes before each longer one that it begins.
pub proof fn lemma_beginning_comes_first(a: Seq<char>, rest: Seq<char>)
    ensures
        text_lt(a, a + rest) <==> rest.len() > 0,
        !text_lt(a + rest, a),
    decreases a.len(),
{
    if a.len() > 0 {
        lemma_beginning_comes_first(a.drop_first(), rest);
        assert((a + rest).drop_first() =~= a.drop_first() + rest);
    } else {
        assert(a + rest =~= rest);
    }
}

/// Whether `a` comes before `b` in the order of a dictionary: they are the same up to some
/// place, and there `a` has ended or has the lesser character.
pub open spec fn comes_before(a: Seq<char>, b: Seq<char>) -> bool {
    exists|p: int| #[trigger] parts_at(a, b, p)
}

/// Whether `a` and `b` are the same up to the place `p`, where `b` has a character, and `a`
/// has ended or has a lesser one.
pub open spec fn parts_at(a: Seq<char>, b: Seq<char>, p: int) -> bool {
    &&& 0 <= p <= a.len()
    &&& p < b.len()
    &&& forall|q: int| 0 <= q < p ==> #[trigger] a[q] == b[q]
    &&& p == a.len() || a[p] < b[p]
}

/// The order of texts is that of a dictionary.
pub proof fn lemma_dictionary_order(a: Seq<char>, b: Seq<char>)
    ensures
        text_lt(a, b) <==> comes_before(a, b),
        !(comes_before(a, b) && comes_before(b, a)),
        a != b ==> comes_before(a, b) || comes_before(b, a),
        !comes_before(a, a),
    decreases a.len(),
{
    if text_lt(a, b) {
        lemma_difference_exists(a, b);
    }
    if text_lt(b, a) {
        lemma_difference_exists(b, a);
    }
    if comes_before(a, b) {
        let p = choose|p: int| #[trigger] parts_at(a, b, p);
        lemma_parting_decides(a, b, p);
    }
    if comes_before(b, a) {
        let p = choose|p: int| #[trigger] parts_at(b, a, p);
        lemma_parting_decides(b, a, p);
    }
    if text_lt(a, b) && text_lt(b, a) {
        lemma_text_lt_transitive(a, b, a);
    }
    lemma_text_lt_irreflexive(a);
    if a != b {
        lemma_text_lt_total(a, b);
    }
    if comes_before(a, a) {
        let p = choose|p: int| #[trigger] parts_at(a, a, p);
        assert(false);
    }
}

proof fn lemma_difference_exists(a: Seq<char>, b: Seq<char>)
    requires
        text_lt(a, b),
    ensures
        comes_before(a, b),
    decreases a.len(),
{
    if a.len() == 0 || a[0] != b[0] {
        assert(parts_at(a, b, 0));
    } else {
        let x = a.drop_first();
        let y = b.drop_first();
        lemma_difference_exists(x, y);
        let p = choose|p: int| #[trigger] parts_at(x, y, p);
        assert forall|q: int| 0 <= q < p + 1 implies #[trigger] a[q] == b[q] by {
            if q > 0 {
                assert(x[q - 1] == y[q - 1]);
            }
        }
        assert(parts_at(a, b, p + 1));
    }
}

proof fn lemma_parting_decides(a: Seq<char>, b: Seq<char>, p: int)
    requires
        parts_at(a, b, p),
    ensures
        text_lt(a, b),
{
    if p < a.len() {
        lemma_first_difference_decides(a, b, p);
    } else {
        assert(b =~= a + b.skip(p));
        lemma_beginning_comes_first(a, b.skip(p));
    }
}

/// A text occurs in another exactly if the other is some text before, the text itself, and
/// some text behind.
pub proof fn lemma_occurs_between(before: Seq<char>, text: Seq<char>, behind: Seq<char>)
    ensures
        occurs(before + text + behind, text),
{
    let whole = before + text + behind;
    let at = before.len() as int;
    assert(whole.subrange(at, at + text.len()) =~= text);
    assert(occurs_at(whole, text, at));
}

/// Where a text occurs in another, there are the texts before it and behind it.
pub proof fn lemma_occurs_splits(whole: Seq<char>, text: Seq<char>) -> (r: (Seq<char>, Seq<char>))
    requires
        occurs(whole, text),
    ensures
        whole == r.0 + text + r.1,
{
    let at = choose|at: int| occurs_at(whole, text, at);
    let r = (whole.take(at), whole.skip(at + text.len()));
    assert(whole =~= r.0 + text + r.1);
    r
}

/// Trimming takes away what is to be dropped from both ends, and nothing else.
pub proof fn lemma_trimmed_middle(
    before: Seq<char>,
    middle: Seq<char>,
    behind: Seq<char>,
    drops: spec_fn(char) -> bool,
)
    requires
        forall|i: int| 0 <= i < before.len() ==> drops(#[trigger] before[i]),
        forall|i: int| 0 <= i < behind.len() ==> drops(#[trigger] behind[i]),
        middle.len() > 0 ==> !drops(middle.first()) && !drops(middle.last()),
    ensures
        trimmed(before + middle + behind, drops) == middle,
    decreases before.len() + behind.len(), behind.len(),
{
    let s = before + middle + behind;
    if before.len() > 0 {
        let fewer = before.drop_first();
        assert(drops(before[0]));
        assert forall|i: int| 0 <= i < fewer.len() implies drops(#[trigger] fewer[i]) by {
            assert(drops(before[i + 1]));
        }
        lemma_trimmed_middle(fewer, middle, behind, drops);
        assert(s.first() == before[0]);
        assert(s.drop_first() =~= fewer + middle + behind);
    } else if behind.len() > 0 && middle.len() == 0 {
        assert(s =~= behind + middle + before);
        lemma_trimmed_middle(behind, middle, before, drops);
    } else if behind.len() > 0 {
        let fewer = behind.drop_last();
        assert(drops(behind[behind.len() - 1]));
        assert forall|i: int| 0 <= i < fewer.len() implies drops(#[trigger] fewer[i]) by {
            assert(drops(behind[i]));
        }
        lemma_trimmed_middle(before, middle, fewer, drops);
        assert(s.drop_last() =~= before + middle + fewer);
        assert(s.last() == behind[behind.len() - 1]);
        assert(s.first() == middle.first());
    } else {
        assert(s =~= middle);
    }
}

/// Lower case changes nothing in an ASCII text but its capital letters, each of which is
/// replaced by the small letter of the same place in the alphabet.
pub proof fn lemma_lowercase_of_ascii(s: Seq<char>)
    requires
        forall|i: int| 0 <= i < s.len() ==> #[trigger] s[i] < '\u{80}',
    ensures
        lowercase(s).len() == s.len(),
        forall|i: int|
            0 <= i < s.len() ==> lowercase(s)[i] as int - #[trigger] s[i] as int == if 'A' <= s[i]
                <= 'Z' {
                'a' as int - 'A' as int
            } else {
                0
            },
{
    assert(is_ascii_text(s));
    assert forall|i: int| 0 <= i < s.len() implies lowercase(s)[i] as int - #[trigger] s[i] as int
        == if 'A' <= s[i] <= 'Z' {
        'a' as int - 'A' as int
    } else {
        0
    } by {
        assert(lowercase(s)[i] == ascii_lower(s[i]));
    }
}

/// A text with other than ASCII characters has the lower case that the Unicode rules give.
pub proof fn lemma_lowercase_of_others(s: Seq<char>, i: int)
    requires
        0 <= i < s.len(),
        s[i] >= '\u{80}',
    ensures
        lowercase(s) == unicode_lowercase(s),
{
}

/// Whether `s` is an ASCII text without capital letters.
pub open spec fn is_small_ascii(s: Seq<char>) -> bool {
    forall|i: int| 0 <= i < s.len() ==> #[trigger] s[i] < '\u{80}' && !('A' <= s[i] <= 'Z')
}

/// An ASCII text without capital letters is its own lower case.
pub proof fn lemma_small_ascii_stays(s: Seq<char>)
    requires
        is_small_ascii(s),
    ensures
        lowercase(s) == s,
{
    lemma_lowercase_of_ascii(s);
    assert(lowercase(s) =~= s);
}

/// White space is one of twenty-five characters.
pub proof fn lemma_white_space_characters(c: char)
    ensures
        is_white_space(c) <==> seq![
            '\u{9}',
            '\u{a}',
            '\u{b}',
            '\u{c}',
            '\u{d}',
            '\u{20}',
            '\u{85}',
            '\u{a0}',
            '\u{1680}',
            '\u{2000}',
            '\u{2001}',
            '\u{2002}',
            '\u{2003}',
            '\u{2004}',
            '\u{2005}',
            '\u{2006}',
            '\u{2007}',
            '\u{2008}',
            '\u{2009}',
            '\u{200a}',
            '\u{2028}',
            '\u{2029}',
            '\u{202f}',
            '\u{205f}',
            '\u{3000}',
        ].contains(c),
{
    let all = seq![
        '\u{9}',
        '\u{a}',
        '\u{b}',
        '\u{c}',
        '\u{d}',
        '\u{20}',
        '\u{85}',
        '\u{a0}',
        '\u{1680}',
        '\u{2000}',
        '\u{2001}',
        '\u{2002}',
        '\u{2003}',
        '\u{2004}',
        '\u{2005}',
        '\u{2006}',
        '\u{2007}',
        '\u{2008}',
        '\u{2009}',
        '\u{200a}',
        '\u{2028}',
        '\u{2029}',
        '\u{202f}',
        '\u{205f}',
        '\u{3000}',
    ];
    if is_white_space(c) {
        let n = c as int;
        let i: int = if n <= 0xd {
            n - 9
        } else if n == 0x20 {
            5
        } else if n == 0x85 {
            6
        } else if n == 0xa0 {
            7
        } else if n == 0x1680 {
            8
        } else if n <= 0x200a {
            n - 0x2000 + 9
        } else if n == 0x2028 {
            20
        } else if n == 0x2029 {
            21
        } else if n == 0x202f {
            22
        } else if n == 0x205f {
            23
        } else {
            24
        };
        assert(all[i] == c);
    }
}

} // verus!
