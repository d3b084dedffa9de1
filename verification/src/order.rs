//! Ordering: positions sorted by a key, positions with equal keys in their own order.

use vstd::prelude::*;

use crate::text::{
    lemma_text_lt_irreflexive, lemma_text_lt_total, lemma_text_lt_transitive, text_less, text_lt,
};

verus! {

broadcast use vstd::seq_lib::group_to_multiset_ensures;

/// What a position is sorted by: first the number, then the text.
pub struct SortKey {
    pub number: u64,
    pub text: Vec<char>,
}

/// What a position is sorted by, as mathematical values.
#[verifier::ext_equal]
pub struct KeyView {
    pub number: int,
    pub text: Seq<char>,
}

impl View for SortKey {
    type V = KeyView;

    open spec fn view(&self) -> KeyView {
        KeyView { number: self.number as int, text: self.text@ }
    }
}

/// The order of keys: by number, then by text.
pub open spec fn key_lt(a: KeyView, b: KeyView) -> bool {
    a.number < b.number || (a.number == b.number && text_lt(a.text, b.text))
}

/// The order of positions: by key, and by position where the keys are equal.
pub open spec fn position_lt(keys: spec_fn(int) -> KeyView, a: int, b: int) -> bool {
    key_lt(keys(a), keys(b)) || (keys(a) == keys(b) && a < b)
}

/// Whether each position of `s` comes before all that follow it.
pub open spec fn ascending(keys: spec_fn(int) -> KeyView, s: Seq<usize>) -> bool {
    forall|i: int, j: int|
        0 <= i < j < s.len() ==> position_lt(keys, #[trigger] s[i] as int, #[trigger] s[j] as int)
}

/// The keys in a vector, by position.
pub open spec fn keys_of(keys: Seq<SortKey>) -> spec_fn(int) -> KeyView {
    |i: int| keys[i]@
}

/// No position comes before itself.
pub proof fn lemma_position_lt_irreflexive(keys: spec_fn(int) -> KeyView, a: int)
    ensures
        !position_lt(keys, a, a),
{
    lemma_text_lt_irreflexive(keys(a).text);
}

/// The order of positions is transitive.
pub proof fn lemma_position_lt_transitive(keys: spec_fn(int) -> KeyView, a: int, b: int, c: int)
    requires
        position_lt(keys, a, b),
        position_lt(keys, b, c),
    ensures
        position_lt(keys, a, c),
{
    if text_lt(keys(a).text, keys(b).text) && text_lt(keys(b).text, keys(c).text) {
        lemma_text_lt_transitive(keys(a).text, keys(b).text, keys(c).text);
    }
}

/// Of two different positions one comes before the other.
pub proof fn lemma_position_lt_total(keys: spec_fn(int) -> KeyView, a: int, b: int)
    requires
        a != b,
    ensures
        position_lt(keys, a, b) || position_lt(keys, b, a),
{
    if keys(a).number == keys(b).number && keys(a).text != keys(b).text {
        lemma_text_lt_total(keys(a).text, keys(b).text);
    }
    if keys(a).number == keys(b).number && keys(a).text == keys(b).text {
        assert(keys(a) =~= keys(b));
    }
}

fn comes_before(keys: &Vec<SortKey>, a: usize, b: usize) -> (r: bool)
    requires
        a < keys@.len(),
        b < keys@.len(),
        a != b,
    ensures
        r == position_lt(keys_of(keys@), a as int, b as int),
{
    proof {
        let k = keys_of(keys@);
        lemma_position_lt_total(k, a as int, b as int);
        if position_lt(k, a as int, b as int) && position_lt(k, b as int, a as int) {
            lemma_position_lt_transitive(k, a as int, b as int, a as int);
            lemma_position_lt_irreflexive(k, a as int);
        }
    }
    if keys[a].number != keys[b].number {
        return keys[a].number < keys[b].number;
    }
    if text_less(&keys[a].text, &keys[b].text) {
        return true;
    }
    if text_less(&keys[b].text, &keys[a].text) {
        return false;
    }
    proof {
        if keys@[a as int].text@ != keys@[b as int].text@ {
            lemma_text_lt_total(keys@[a as int].text@, keys@[b as int].text@);
        }
        assert(keys@[a as int]@ =~= keys@[b as int]@);
    }
    a < b
}

/// Whether no position stands in both `a` and `b`.
spec fn apart(a: Seq<usize>, b: Seq<usize>) -> bool {
    forall|i: int, j: int| 0 <= i < a.len() && 0 <= j < b.len() ==> a[i] != b[j]
}

fn merge(keys: &Vec<SortKey>, a: &Vec<usize>, b: &Vec<usize>) -> (r: Vec<usize>)
    requires
        forall|i: int| 0 <= i < a@.len() ==> #[trigger] a@[i] < keys@.len(),
        forall|i: int| 0 <= i < b@.len() ==> #[trigger] b@[i] < keys@.len(),
        ascending(keys_of(keys@), a@),
        ascending(keys_of(keys@), b@),
        apart(a@, b@),
    ensures
        r@.to_multiset() == a@.to_multiset().add(b@.to_multiset()),
        ascending(keys_of(keys@), r@),
{
    let ghost k = keys_of(keys@);
    let mut r: Vec<usize> = Vec::new();
    let mut i: usize = 0;
    let mut j: usize = 0;
    assert(a@.take(0) =~= Seq::empty());
    assert(b@.take(0) =~= Seq::empty());
    assert(r@.to_multiset() =~= a@.take(0).to_multiset().add(b@.take(0).to_multiset()));
    while i < a.len() || j < b.len()
        invariant
            k == keys_of(keys@),
            forall|x: int| 0 <= x < a@.len() ==> #[trigger] a@[x] < keys@.len(),
            forall|x: int| 0 <= x < b@.len() ==> #[trigger] b@[x] < keys@.len(),
            ascending(k, a@),
            ascending(k, b@),
            apart(a@, b@),
            i <= a@.len(),
            j <= b@.len(),
            r@.to_multiset() == a@.take(i as int).to_multiset().add(
                b@.take(j as int).to_multiset(),
            ),
            ascending(k, r@),
            forall|x: int, y: int|
                0 <= x < r@.len() && i <= y < a@.len() ==> position_lt(
                    k,
                    #[trigger] r@[x] as int,
                    #[trigger] a@[y] as int,
                ),
            forall|x: int, y: int|
                0 <= x < r@.len() && j <= y < b@.len() ==> position_lt(
                    k,
                    #[trigger] r@[x] as int,
                    #[trigger] b@[y] as int,
                ),
        decreases a@.len() - i + b@.len() - j,
    {
        let ghost before = r@;
        if j == b.len() || (i < a.len() && comes_before(keys, a[i], b[j])) {
            r.push(a[i]);
            proof {
                assert(a@.take(i + 1) =~= a@.take(i as int).push(a@[i as int]));
                assert(r@.to_multiset() =~= a@.take(i + 1).to_multiset().add(
                    b@.take(j as int).to_multiset(),
                ));
                assert forall|x: int, y: int|
                    0 <= x < r@.len() && j <= y < b@.len() implies position_lt(
                    k,
                    #[trigger] r@[x] as int,
                    #[trigger] b@[y] as int,
                ) by {
                    if x == before.len() && y > j {
                        lemma_position_lt_transitive(
                            k,
                            a@[i as int] as int,
                            b@[j as int] as int,
                            b@[y] as int,
                        );
                    }
                }
            }
            i += 1;
        } else {
            r.push(b[j]);
            proof {
                if i < a@.len() {
                    lemma_position_lt_total(k, a@[i as int] as int, b@[j as int] as int);
                }
                assert(b@.take(j + 1) =~= b@.take(j as int).push(b@[j as int]));
                assert(r@.to_multiset() =~= a@.take(i as int).to_multiset().add(
                    b@.take(j + 1).to_multiset(),
                ));
                assert forall|x: int, y: int|
                    0 <= x < r@.len() && i <= y < a@.len() implies position_lt(
                    k,
                    #[trigger] r@[x] as int,
                    #[trigger] a@[y] as int,
                ) by {
                    if x == before.len() && y > i {
                        lemma_position_lt_transitive(
                            k,
                            b@[j as int] as int,
                            a@[i as int] as int,
                            a@[y] as int,
                        );
                    }
                }
            }
            j += 1;
        }
    }
    assert(a@.take(a@.len() as int) =~= a@);
    assert(b@.take(b@.len() as int) =~= b@);
    r
}

fn sort_part(keys: &Vec<SortKey>, s: &Vec<usize>, from: usize, to: usize) -> (r: Vec<usize>)
    requires
        from <= to <= s@.len(),
        forall|i: int| 0 <= i < s@.len() ==> #[trigger] s@[i] < keys@.len(),
        s@.no_duplicates(),
    ensures
        r@.to_multiset() == s@.subrange(from as int, to as int).to_multiset(),
        ascending(keys_of(keys@), r@),
    decreases to - from,
{
    if to - from <= 1 {
        let mut r: Vec<usize> = Vec::new();
        if from < to {
            r.push(s[from]);
        }
        assert(r@ =~= s@.subrange(from as int, to as int));
        return r;
    }
    let middle: usize = from + (to - from) / 2;
    let a = sort_part(keys, s, from, middle);
    let b = sort_part(keys, s, middle, to);
    proof {
        let left = s@.subrange(from as int, middle as int);
        let right = s@.subrange(middle as int, to as int);
        assert(left + right =~= s@.subrange(from as int, to as int));
        vstd::seq_lib::lemma_multiset_commutative(left, right);
        lemma_same_members(a@, left);
        lemma_same_members(b@, right);
        assert forall|i: int| 0 <= i < a@.len() implies #[trigger] a@[i] < keys@.len() by {
            assert(left.contains(a@[i]));
        }
        assert forall|i: int| 0 <= i < b@.len() implies #[trigger] b@[i] < keys@.len() by {
            assert(right.contains(b@[i]));
        }
        assert forall|i: int, j: int| 0 <= i < a@.len() && 0 <= j < b@.len() implies a@[i]
            != b@[j] by {
            assert(left.contains(a@[i]));
            assert(right.contains(b@[j]));
            let x = choose|x: int| 0 <= x < left.len() && left[x] == a@[i];
            let y = choose|y: int| 0 <= y < right.len() && right[y] == b@[j];
            assert(s@[from + x] != s@[middle + y]);
        }
    }
    merge(keys, &a, &b)
}

/// Two sequences with the same elements, counted, hold the same elements.
pub proof fn lemma_same_members(a: Seq<usize>, b: Seq<usize>)
    requires
        a.to_multiset() == b.to_multiset(),
    ensures
        a.len() == b.len(),
        forall|i: int| 0 <= i < a.len() ==> b.contains(#[trigger] a[i]),
{
    assert forall|i: int| 0 <= i < a.len() implies b.contains(#[trigger] a[i]) by {
        assert(a.contains(a[i]));
        assert(a.to_multiset().count(a[i]) > 0);
        assert(b.to_multiset().count(a[i]) > 0);
    }
    assert(a.to_multiset().len() == a.len());
    assert(b.to_multiset().len() == b.len());
}

/// The positions in `s`, each as often as before, sorted by their keys; positions with
/// equal keys ascend.
pub fn sort_positions(keys: &Vec<SortKey>, s: &Vec<usize>) -> (r: Vec<usize>)
    requires
        forall|i: int| 0 <= i < s@.len() ==> #[trigger] s@[i] < keys@.len(),
        s@.no_duplicates(),
    ensures
        r@.to_multiset() == s@.to_multiset(),
        ascending(keys_of(keys@), r@),
{
    assert(s@.subrange(0, s@.len() as int) =~= s@);
    sort_part(keys, s, 0, s.len())
}

/// There is one way only to sort: two ascending sequences with the same elements are equal.
pub proof fn lemma_ascending_unique(keys: spec_fn(int) -> KeyView, a: Seq<usize>, b: Seq<usize>)
    requires
        ascending(keys, a),
        ascending(keys, b),
        a.to_multiset() == b.to_multiset(),
    ensures
        a == b,
    decreases a.len(),
{
    lemma_same_members(a, b);
    lemma_same_members(b, a);
    if a.len() > 0 {
        assert(a.contains(b[0]));
        assert(b.contains(a[0]));
        let i = choose|i: int| 0 <= i < a.len() && a[i] == b[0];
        let j = choose|j: int| 0 <= j < b.len() && b[j] == a[0];
        if a[0] != b[0] {
            assert(position_lt(keys, a[0] as int, a[i] as int));
            assert(position_lt(keys, b[0] as int, b[j] as int));
            lemma_position_lt_transitive(keys, a[0] as int, b[0] as int, a[0] as int);
            lemma_position_lt_irreflexive(keys, a[0] as int);
        }
        let x = a.drop_first();
        let y = b.drop_first();
        assert(a =~= seq![a[0]] + x);
        assert(b =~= seq![b[0]] + y);
        assert(x =~= a.remove(0));
        assert(y =~= b.remove(0));
        assert(x.to_multiset() =~= y.to_multiset());
        lemma_ascending_unique(keys, x, y);
    } else {
        assert(a =~= b);
    }
}

} // verus!
