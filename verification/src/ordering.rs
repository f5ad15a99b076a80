//! Stable sorting by a text key: what it means, that it exists, and that it
//! is unique.

use vstd::prelude::*;
use crate::names::{chars_lt, lemma_chars_le_transitive, lemma_chars_lt_trichotomy};

verus! {

broadcast use vstd::seq_lib::group_seq_properties;

/// The items whose key is `k`.
pub open spec fn key_is<T>(key: spec_fn(T) -> Seq<char>, k: Seq<char>) -> spec_fn(T) -> bool {
    |x: T| key(x) == k
}

/// No item has a larger key than an item after it.
pub open spec fn sorted_by<T>(s: Seq<T>, key: spec_fn(T) -> Seq<char>) -> bool {
    forall|i: int, j: int| 0 <= i < j < s.len() ==> !chars_lt(#[trigger] key(s[j]), #[trigger] key(s[i]))
}

/// For every key, the items with that key come in the same order in `a` as
/// in `b`.
pub open spec fn same_key_groups<T>(a: Seq<T>, b: Seq<T>, key: spec_fn(T) -> Seq<char>) -> bool {
    forall|k: Seq<char>| #[trigger] a.filter(key_is(key, k)) == b.filter(key_is(key, k))
}

/// `out` is `inp` sorted by `key`, items with equal keys keeping their
/// order.
pub open spec fn is_stable_sort_by<T>(out: Seq<T>, inp: Seq<T>, key: spec_fn(T) -> Seq<char>) -> bool {
    sorted_by(out, key) && same_key_groups(out, inp, key)
}

pub proof fn lemma_filter_none<T>(s: Seq<T>, p: spec_fn(T) -> bool)
    requires
        forall|i: int| 0 <= i < s.len() ==> !p(#[trigger] s[i]),
    ensures
        s.filter(p) == Seq::<T>::empty(),
    decreases s.len(),
{
    reveal(Seq::filter);
    if s.len() > 0 {
        lemma_filter_none(s.drop_last(), p);
    }
}

proof fn lemma_filter_member<T>(s: Seq<T>, p: spec_fn(T) -> bool) -> (j: int)
    requires
        s.filter(p).len() > 0,
    ensures
        0 <= j < s.len(),
        p(s[j]),
{
    let y = s.filter(p)[0];
    s.lemma_filter_pred(p, 0);
    assert(s.filter(p).contains(y));
    s.lemma_filter_contains_rev(p, y);
    let j = choose|j: int| 0 <= j < s.len() && s[j] == y;
    j
}

/// A filter of a sequence without duplicates has none either.
pub proof fn lemma_filter_no_duplicates<T>(s: Seq<T>, p: spec_fn(T) -> bool)
    requires
        s.no_duplicates(),
    ensures
        s.filter(p).no_duplicates(),
    decreases s.len(),
{
    reveal(Seq::filter);
    if s.len() > 0 {
        let rest = s.drop_last();
        lemma_filter_no_duplicates(rest, p);
        if rest.filter(p).contains(s.last()) {
            rest.lemma_filter_contains_rev(p, s.last());
        }
    }
}

/// Filtering by a predicate that `x` meets keeps every occurrence of `x`.
proof fn lemma_filter_count<T>(s: Seq<T>, p: spec_fn(T) -> bool, x: T)
    requires
        p(x),
    ensures
        s.filter(p).to_multiset().count(x) == s.to_multiset().count(x),
    decreases s.len(),
{
    broadcast use vstd::multiset::group_multiset_axioms;

    reveal(Seq::filter);
    if s.len() > 0 {
        let rest = s.drop_last();
        lemma_filter_count(rest, p, x);
        assert(s =~= rest.push(s.last()));
    }
}

/// Sequences with the same key groups hold the same items, as often.
pub proof fn lemma_same_groups_same_multiset<T>(a: Seq<T>, b: Seq<T>, key: spec_fn(T) -> Seq<char>)
    requires
        same_key_groups(a, b, key),
    ensures
        a.to_multiset() == b.to_multiset(),
{
    assert forall|x: T| a.to_multiset().count(x) == b.to_multiset().count(x) by {
        let p = key_is(key, key(x));
        assert(a.filter(p) == b.filter(p));
        lemma_filter_count(a, p, x);
        lemma_filter_count(b, p, x);
    }
    assert(a.to_multiset() =~= b.to_multiset());
}

/// Items with equal keys keep their order: the same items.
pub proof fn lemma_stable_sort_members<T>(
    out: Seq<T>,
    inp: Seq<T>,
    key: spec_fn(T) -> Seq<char>,
    x: T,
)
    requires
        same_key_groups(out, inp, key),
    ensures
        out.contains(x) <==> inp.contains(x),
{
    let p = key_is(key, key(x));
    assert(out.filter(p) == inp.filter(p));
    if out.contains(x) {
        let i = choose|i: int| 0 <= i < out.len() && out[i] == x;
        out.lemma_filter_contains(p, i);
        inp.lemma_filter_contains_rev(p, x);
    }
    if inp.contains(x) {
        let i = choose|i: int| 0 <= i < inp.len() && inp[i] == x;
        inp.lemma_filter_contains(p, i);
        out.lemma_filter_contains_rev(p, x);
    }
}

/// Inserting `x` after every item whose key is not above its own, and before
/// every item whose key is, extends a stable sort of `inp` to a stable sort
/// of `inp` followed by `x`.
pub proof fn lemma_insert_keeps_stable_sort<T>(
    out: Seq<T>,
    inp: Seq<T>,
    key: spec_fn(T) -> Seq<char>,
    x: T,
    p: int,
)
    requires
        is_stable_sort_by(out, inp, key),
        0 <= p <= out.len(),
        p == 0 || !chars_lt(key(x), key(out[p - 1])),
        forall|j: int| p <= j < out.len() ==> chars_lt(key(x), #[trigger] key(out[j])),
    ensures
        is_stable_sort_by(out.insert(p, x), inp.push(x), key),
{
    let kx = key(x);
    let new = out.insert(p, x);
    out.insert_ensures(p, x);
    assert forall|j: int| 0 <= j < p implies !chars_lt(kx, #[trigger] key(out[j])) by {
        if j < p - 1 {
            lemma_chars_le_transitive(kx, key(out[p - 1]), key(out[j]));
        }
    }
    assert forall|i: int, j: int|
        0 <= i < j < new.len() implies !chars_lt(#[trigger] key(new[j]), #[trigger] key(new[i])) by {
        if i < p && j == p {
        } else if i == p && j > p {
            lemma_chars_lt_trichotomy(kx, key(out[j - 1]));
        } else if i < p && j > p {
            assert(key(new[j]) == key(out[j - 1]));
        } else if i > p {
            assert(key(new[i]) == key(out[i - 1]));
            assert(key(new[j]) == key(out[j - 1]));
        } else {
            assert(key(new[i]) == key(out[i]));
            assert(key(new[j]) == key(out[j]));
        }
    }
    let a = out.subrange(0, p);
    let b = out.subrange(p, out.len() as int);
    assert(out =~= a + b);
    assert(new == a.push(x) + b);
    assert forall|k: Seq<char>| #[trigger] new.filter(key_is(key, k)) == inp.push(x).filter(
        key_is(key, k),
    ) by {
        let pk = key_is(key, k);
        Seq::filter_distributes_over_add(a.push(x), b, pk);
        Seq::filter_distributes_over_add(a, b, pk);
        a.lemma_filter_push(x, pk);
        inp.lemma_filter_push(x, pk);
        assert(out.filter(pk) == inp.filter(pk));
        if kx == k {
            assert forall|i: int| 0 <= i < b.len() implies !pk(#[trigger] b[i]) by {
                assert(b[i] == out[p + i]);
                assert(chars_lt(kx, key(out[p + i])));
                lemma_chars_lt_trichotomy(kx, kx);
            }
            lemma_filter_none(b, pk);
            assert(a.filter(pk) + b.filter(pk) =~= a.filter(pk));
            assert(a.filter(pk).push(x) + b.filter(pk) =~= a.filter(pk).push(x));
        }
    }
}

/// Where an item with key `k` goes among `out`: after the last item whose
/// key is not above `k`.
spec fn insertion_point<T>(out: Seq<T>, key: spec_fn(T) -> Seq<char>, k: Seq<char>) -> int
    decreases out.len(),
{
    if out.len() == 0 {
        0
    } else if !chars_lt(k, key(out.last())) {
        out.len() as int
    } else {
        insertion_point(out.drop_last(), key, k)
    }
}

proof fn lemma_insertion_point<T>(out: Seq<T>, key: spec_fn(T) -> Seq<char>, k: Seq<char>)
    ensures
        0 <= insertion_point(out, key, k) <= out.len(),
        insertion_point(out, key, k) == 0 || !chars_lt(k, key(out[insertion_point(out, key, k) - 1])),
        forall|j: int|
            insertion_point(out, key, k) <= j < out.len() ==> chars_lt(k, #[trigger] key(out[j])),
    decreases out.len(),
{
    if out.len() > 0 && chars_lt(k, key(out.last())) {
        lemma_insertion_point(out.drop_last(), key, k);
        let p = insertion_point(out.drop_last(), key, k);
        assert forall|j: int| p <= j < out.len() implies chars_lt(k, #[trigger] key(out[j])) by {
            if j < out.len() - 1 {
                assert(out[j] == out.drop_last()[j]);
            }
        }
    }
}

/// Every sequence has a stable sort.
pub proof fn lemma_stable_sort_exists<T>(inp: Seq<T>, key: spec_fn(T) -> Seq<char>) -> (out: Seq<T>)
    ensures
        is_stable_sort_by(out, inp, key),
    decreases inp.len(),
{
    if inp.len() == 0 {
        inp
    } else {
        let rest = lemma_stable_sort_exists(inp.drop_last(), key);
        let x = inp.last();
        let p = insertion_point(rest, key, key(x));
        lemma_insertion_point(rest, key, key(x));
        lemma_insert_keeps_stable_sort(rest, inp.drop_last(), key, x, p);
        assert(inp.drop_last().push(x) =~= inp);
        rest.insert(p, x)
    }
}

/// Two sorted sequences with the same key groups are equal: a stable sort
/// is unique.
pub proof fn lemma_stable_sort_unique<T>(a: Seq<T>, b: Seq<T>, key: spec_fn(T) -> Seq<char>)
    requires
        sorted_by(a, key),
        sorted_by(b, key),
        same_key_groups(a, b, key),
    ensures
        a == b,
    decreases a.len(),
{
    reveal(Seq::filter);
    if a.len() == 0 || b.len() == 0 {
        if a.len() > 0 || b.len() > 0 {
            let s = if a.len() > 0 {
                a
            } else {
                b
            };
            let k = key(s.last());
            assert(s =~= s.drop_last().push(s.last()));
            s.drop_last().lemma_filter_push(s.last(), key_is(key, k));
            assert(a.filter(key_is(key, k)) == b.filter(key_is(key, k)));
            assert(false);
        }
        assert(a =~= b);
    } else {
        let x = a.last();
        let y = b.last();
        let kx = key(x);
        let ky = key(y);
        let a0 = a.drop_last();
        let b0 = b.drop_last();
        assert(a =~= a0.push(x));
        assert(b =~= b0.push(y));
        a0.lemma_filter_push(x, key_is(key, kx));
        b0.lemma_filter_push(y, key_is(key, ky));
        assert(a.filter(key_is(key, kx)) == b.filter(key_is(key, kx)));
        assert(a.filter(key_is(key, ky)) == b.filter(key_is(key, ky)));
        let jb = lemma_filter_member(b, key_is(key, kx));
        let ja = lemma_filter_member(a, key_is(key, ky));
        if jb < b.len() - 1 {
            assert(!chars_lt(key(b[b.len() - 1]), key(b[jb])));
        }
        if ja < a.len() - 1 {
            assert(!chars_lt(key(a[a.len() - 1]), key(a[ja])));
        }
        lemma_chars_lt_trichotomy(kx, ky);
        assert(kx == ky);
        b0.lemma_filter_push(y, key_is(key, kx));
        assert(a0.filter(key_is(key, kx)).push(x) == b0.filter(key_is(key, kx)).push(y));
        assert(x == a0.filter(key_is(key, kx)).push(x).last());
        assert(x == y);
        assert forall|k: Seq<char>| #[trigger] a0.filter(key_is(key, k)) == b0.filter(key_is(key, k)) by {
            a0.lemma_filter_push(x, key_is(key, k));
            b0.lemma_filter_push(y, key_is(key, k));
            assert(a.filter(key_is(key, k)) == b.filter(key_is(key, k)));
            if k == kx {
                assert(a0.filter(key_is(key, k)) =~= a0.filter(key_is(key, k)).push(x).drop_last());
                assert(b0.filter(key_is(key, k)) =~= b0.filter(key_is(key, k)).push(y).drop_last());
            }
        }
        assert forall|i: int, j: int|
            0 <= i < j < a0.len() implies !chars_lt(#[trigger] key(a0[j]), #[trigger] key(a0[i])) by {
            assert(key(a[j]) == key(a0[j]));
            assert(key(a[i]) == key(a0[i]));
        }
        assert forall|i: int, j: int|
            0 <= i < j < b0.len() implies !chars_lt(#[trigger] key(b0[j]), #[trigger] key(b0[i])) by {
            assert(key(b[j]) == key(b0[j]));
            assert(key(b[i]) == key(b0[i]));
        }
        lemma_stable_sort_unique(a0, b0, key);
    }
}

} // verus!
