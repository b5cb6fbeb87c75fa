//! Stable sorting by a string key, the order in which the viewer lists files.
//!
//! A stably sorted sequence is characterised without reference to any
//! algorithm: it is ordered by its keys, and for every key the items that
//! carry it are the same, in the same order, as in the input. The two
//! conditions together fix the output.

use vstd::prelude::*;
use crate::text::{
    chars_le, lemma_seq_le_antisym, lemma_seq_le_refl, lemma_seq_le_total, lemma_seq_le_trans, seq_le,
};

verus! {

broadcast use vstd::seq_lib::group_seq_properties;

/// The items of `s` are in non-decreasing order of their keys.
pub open spec fn sorted_by<T>(s: Seq<T>, key: spec_fn(T) -> Seq<char>) -> bool {
    forall|i: int, j: int| 0 <= i < j < s.len() ==> seq_le(key(#[trigger] s[i]), key(#[trigger] s[j]))
}

/// Whether an item carries the key `k`.
pub open spec fn has_key<T>(key: spec_fn(T) -> Seq<char>, k: Seq<char>) -> spec_fn(T) -> bool {
    |x: T| key(x) == k
}

/// For every key, `a` and `b` hold the same items with that key in the same
/// order (so `a` is a permutation of `b` that keeps equal keys in order).
pub open spec fn same_key_classes<T>(a: Seq<T>, b: Seq<T>, key: spec_fn(T) -> Seq<char>) -> bool {
    forall|k: Seq<char>| #[trigger] a.filter(has_key(key, k)) == b.filter(has_key(key, k))
}

/// `out` is `input` sorted stably by `key`.
pub open spec fn stably_sorted<T>(out: Seq<T>, input: Seq<T>, key: spec_fn(T) -> Seq<char>) -> bool {
    sorted_by(out, key) && same_key_classes(out, input, key)
}

proof fn lemma_filter_single<T>(x: T, pred: spec_fn(T) -> bool)
    ensures
        seq![x].filter(pred) == (if pred(x) { seq![x] } else { Seq::<T>::empty() }),
{
    Seq::<T>::empty().lemma_filter_push(x, pred);
    reveal(Seq::filter);
    assert(Seq::<T>::empty().push(x) =~= seq![x]);
}

/// Filtering with a predicate that every element meets changes nothing.
pub proof fn lemma_filter_all<A>(s: Seq<A>, pred: spec_fn(A) -> bool)
    requires
        forall|i: int| 0 <= i < s.len() ==> pred(s[i]),
    ensures
        s.filter(pred) == s,
    decreases s.len(),
{
    reveal(Seq::filter);
    if s.len() > 0 {
        lemma_filter_all(s.drop_last(), pred);
        assert(s.drop_last().push(s.last()) =~= s);
    }
}

/// Filtering with a predicate that no element meets leaves nothing.
pub proof fn lemma_filter_none<A>(s: Seq<A>, pred: spec_fn(A) -> bool)
    requires
        forall|i: int| 0 <= i < s.len() ==> !pred(s[i]),
    ensures
        s.filter(pred) == Seq::<A>::empty(),
    decreases s.len(),
{
    reveal(Seq::filter);
    if s.len() > 0 {
        lemma_filter_none(s.drop_last(), pred);
    }
}

/// Inserting `x` after every item whose key is at most its own, and before
/// the first whose key is greater, keeps a sorted sequence sorted and puts `x`
/// last among the items that share its key.
proof fn lemma_insert_stable<T>(out: Seq<T>, p: int, x: T, key: spec_fn(T) -> Seq<char>)
    requires
        0 <= p <= out.len(),
        sorted_by(out, key),
        forall|j: int| 0 <= j < p ==> seq_le(key(#[trigger] out[j]), key(x)),
        p < out.len() ==> !seq_le(key(out[p]), key(x)),
    ensures
        sorted_by(out.insert(p, x), key),
        forall|k: Seq<char>|
            #[trigger] out.insert(p, x).filter(has_key(key, k)) == if key(x) == k {
                out.filter(has_key(key, k)).push(x)
            } else {
                out.filter(has_key(key, k))
            },
{
    let kx = key(x);
    let res = out.insert(p, x);
    out.insert_ensures(p, x);
    // every item from position p on has a key greater than kx
    assert forall|m: int| p <= m < out.len() implies !seq_le(key(out[m]), kx) && seq_le(
        kx,
        key(out[m]),
    ) by {
        if m > p {
            assert(seq_le(key(out[p]), key(out[m])));
            if seq_le(key(out[m]), kx) {
                lemma_seq_le_trans(key(out[p]), key(out[m]), kx);
            }
        }
        lemma_seq_le_total(key(out[m]), kx);
    }
    assert forall|i: int, j: int| 0 <= i < j < res.len() implies seq_le(
        key(#[trigger] res[i]),
        key(#[trigger] res[j]),
    ) by {
        if j < p {
            assert(res[i] == out[i] && res[j] == out[j]);
        } else if j == p {
            assert(res[i] == out[i]);
        } else if i < p {
            assert(res[i] == out[i] && res[j] == out[j - 1]);
            lemma_seq_le_trans(key(out[i]), kx, key(out[j - 1]));
        } else if i == p {
            assert(res[j] == out[j - 1]);
        } else {
            assert(res[i] == out[i - 1] && res[j] == out[j - 1]);
        }
    }
    let a = out.subrange(0, p);
    let b = out.subrange(p, out.len() as int);
    assert(out =~= a + b);
    assert(res =~= a + seq![x] + b);
    assert forall|k: Seq<char>| #[trigger] res.filter(has_key(key, k)) == if kx == k {
        out.filter(has_key(key, k)).push(x)
    } else {
        out.filter(has_key(key, k))
    } by {
        let pred = has_key(key, k);
        Seq::filter_distributes_over_add(a, b, pred);
        Seq::filter_distributes_over_add(a, seq![x], pred);
        Seq::filter_distributes_over_add(a + seq![x], b, pred);
        lemma_filter_single(x, pred);
        if kx == k {
            assert forall|i: int| 0 <= i < b.len() implies !pred(b[i]) by {
                assert(b[i] == out[p + i]);
                lemma_seq_le_refl(kx);
            }
            lemma_filter_none(b, pred);
            assert(res.filter(pred) =~= out.filter(pred).push(x));
        } else {
            assert(res.filter(pred) =~= out.filter(pred));
        }
    }
}

/// Sorts `items` stably by their keys; `keys[i]` is the key of `items[i]`.
pub fn stable_sort_by_keys<T>(
    items: Vec<T>,
    keys: Vec<Vec<char>>,
    Ghost(key): Ghost<spec_fn(T) -> Seq<char>>,
) -> (out: Vec<T>)
    requires
        keys.len() == items.len(),
        forall|i: int| 0 <= i < items.len() ==> (#[trigger] keys@[i])@ == key(items@[i]),
    ensures
        stably_sorted(out@, items@, key),
{
    let ghost input = items@;
    let mut items = items;
    let mut keys = keys;
    let mut out: Vec<T> = Vec::new();
    let mut out_keys: Vec<Vec<char>> = Vec::new();
    let ghost mut done: int = 0;
    reveal(Seq::filter);
    assert forall|k: Seq<char>| #[trigger] out@.filter(has_key(key, k)) == input.take(0).filter(
        has_key(key, k),
    ) by {
        assert(input.take(0) =~= Seq::<T>::empty());
    }
    while items.len() > 0
        invariant
            0 <= done <= input.len(),
            items@ == input.skip(done),
            keys.len() == items.len(),
            forall|i: int| 0 <= i < items.len() ==> (#[trigger] keys@[i])@ == key(items@[i]),
            out_keys.len() == out.len(),
            forall|i: int| 0 <= i < out.len() ==> (#[trigger] out_keys@[i])@ == key(out@[i]),
            sorted_by(out@, key),
            forall|k: Seq<char>| #[trigger] out@.filter(has_key(key, k)) == input.take(done).filter(
                has_key(key, k),
            ),
        decreases items.len(),
    {
        assert(keys@[0]@ == key(items@[0]));
        let x = items.remove(0);
        let kx = keys.remove(0);
        assert(x == input[done]);
        let mut p: usize = 0;
        while p < out.len() && chars_le(&out_keys[p], &kx)
            invariant
                p <= out.len(),
                out_keys.len() == out.len(),
                forall|i: int| 0 <= i < out.len() ==> (#[trigger] out_keys@[i])@ == key(out@[i]),
                kx@ == key(x),
                forall|j: int| 0 <= j < p ==> seq_le(key(#[trigger] out@[j]), key(x)),
            decreases out.len() - p,
        {
            p = p + 1;
        }
        proof {
            if p < out.len() {
                assert(out_keys@[p as int]@ == key(out@[p as int]));
            }
            lemma_insert_stable(out@, p as int, x, key);
            assert(input.take(done + 1) =~= input.take(done).push(x));
            assert forall|k: Seq<char>| #[trigger] out@.insert(p as int, x).filter(has_key(key, k))
                == input.take(done + 1).filter(has_key(key, k)) by {
                input.take(done).lemma_filter_push(x, has_key(key, k));
            }
        }
        let ghost old_out = out@;
        let ghost old_keys = out_keys@;
        out.insert(p, x);
        out_keys.insert(p, kx);
        proof {
            old_out.insert_ensures(p as int, x);
            old_keys.insert_ensures(p as int, kx);
            assert forall|i: int| 0 <= i < out.len() implies (#[trigger] out_keys@[i])@ == key(
                out@[i],
            ) by {
                if i > p {
                    assert(out_keys@[i] == old_keys[i - 1]);
                    assert(out@[i] == old_out[i - 1]);
                }
            }
            done = done + 1;
            assert(items@ =~= input.skip(done));
        }
    }
    assert(input.take(done) =~= input);
    out
}

/// If some item of `b` carries the key of `b[j]`, classes being equal, some
/// item of `a` carries it too.
proof fn lemma_class_witness<T>(a: Seq<T>, b: Seq<T>, key: spec_fn(T) -> Seq<char>, j: int) -> (i: int)
    requires
        same_key_classes(a, b, key),
        0 <= j < b.len(),
    ensures
        0 <= i < a.len(),
        key(a[i]) == key(b[j]),
{
    let k = key(b[j]);
    let pred = has_key(key, k);
    b.lemma_filter_contains(pred, j);
    assert(a.filter(pred) == b.filter(pred));
    a.lemma_filter_contains_rev(pred, b[j]);
    let i = choose|i: int| 0 <= i < a.len() && a[i] == b[j];
    i
}

/// Two sequences sorted by the same key, with the same items for every key
/// in the same order, are equal: a stable sort has exactly one result.
pub proof fn lemma_stable_sort_unique<T>(a: Seq<T>, b: Seq<T>, key: spec_fn(T) -> Seq<char>)
    requires
        sorted_by(a, key),
        sorted_by(b, key),
        same_key_classes(a, b, key),
    ensures
        a == b,
    decreases a.len(),
{
    reveal(Seq::filter);
    assert(same_key_classes(b, a, key));
    if a.len() == 0 {
        if b.len() > 0 {
            let i = lemma_class_witness(a, b, key, 0);
        }
        assert(a =~= b);
    } else {
        if b.len() == 0 {
            let i = lemma_class_witness(b, a, key, 0);
        }
        let x = a.last();
        let y = b.last();
        let ia = lemma_class_witness(a, b, key, b.len() - 1);
        let ib = lemma_class_witness(b, a, key, a.len() - 1);
        if ia < a.len() - 1 {
            assert(seq_le(key(a[ia]), key(a[a.len() - 1])));
        } else {
            lemma_seq_le_refl(key(x));
        }
        if ib < b.len() - 1 {
            assert(seq_le(key(b[ib]), key(b[b.len() - 1])));
        } else {
            lemma_seq_le_refl(key(y));
        }
        lemma_seq_le_antisym(key(x), key(y));
        let k = key(x);
        let a2 = a.drop_last();
        let b2 = b.drop_last();
        assert(a.filter(has_key(key, k)) == a2.filter(has_key(key, k)).push(x));
        assert(b.filter(has_key(key, k)) == b2.filter(has_key(key, k)).push(y));
        assert(a.filter(has_key(key, k)) == b.filter(has_key(key, k)));
        assert(a2.filter(has_key(key, k)).push(x).last() == x);
        assert(x == y);
        assert(a2.filter(has_key(key, k)) =~= a.filter(has_key(key, k)).drop_last());
        assert(b2.filter(has_key(key, k)) =~= b.filter(has_key(key, k)).drop_last());
        assert forall|k2: Seq<char>| #[trigger] a2.filter(has_key(key, k2)) == b2.filter(
            has_key(key, k2),
        ) by {
            if k2 != k {
                assert(a.filter(has_key(key, k2)) == a2.filter(has_key(key, k2)));
                assert(b.filter(has_key(key, k2)) == b2.filter(has_key(key, k2)));
                assert(a.filter(has_key(key, k2)) == b.filter(has_key(key, k2)));
            }
        }
        assert(sorted_by(a2, key)) by {
            assert forall|i: int, j: int| 0 <= i < j < a2.len() implies seq_le(
                key(#[trigger] a2[i]),
                key(#[trigger] a2[j]),
            ) by {
                assert(a2[i] == a[i] && a2[j] == a[j]);
            }
        }
        assert(sorted_by(b2, key)) by {
            assert forall|i: int, j: int| 0 <= i < j < b2.len() implies seq_le(
                key(#[trigger] b2[i]),
                key(#[trigger] b2[j]),
            ) by {
                assert(b2[i] == b[i] && b2[j] == b[j]);
            }
        }
        lemma_stable_sort_unique(a2, b2, key);
        assert(a =~= a2.push(x));
        assert(b =~= b2.push(y));
    }
}

/// Sorting what is already sorted changes nothing (and so sorting twice is
/// sorting once).
pub proof fn lemma_sort_sorted_is_identity<T>(out: Seq<T>, input: Seq<T>, key: spec_fn(T) -> Seq<char>)
    requires
        sorted_by(input, key),
        stably_sorted(out, input, key),
    ensures
        out == input,
{
    lemma_stable_sort_unique(out, input, key);
}

proof fn lemma_filter_count<T>(s: Seq<T>, pred: spec_fn(T) -> bool, v: T)
    requires
        pred(v),
    ensures
        s.filter(pred).to_multiset().count(v) == s.to_multiset().count(v),
    decreases s.len(),
{
    reveal(Seq::filter);
    if s.len() > 0 {
        let d = s.drop_last();
        lemma_filter_count(d, pred, v);
        d.to_multiset_ensures();
        d.filter(pred).to_multiset_ensures();
        assert(d.push(s.last()) =~= s);
    }
}

/// Items with the same keys in the same classes are the same items: a
/// stable sort neither loses nor adds anything.
pub proof fn lemma_same_classes_permutation<T>(a: Seq<T>, b: Seq<T>, key: spec_fn(T) -> Seq<char>)
    requires
        same_key_classes(a, b, key),
    ensures
        a.to_multiset() == b.to_multiset(),
{
    assert forall|v: T| a.to_multiset().count(v) == b.to_multiset().count(v) by {
        let pred = has_key(key, key(v));
        lemma_filter_count(a, pred, v);
        lemma_filter_count(b, pred, v);
        assert(a.filter(pred) == b.filter(pred));
    }
    assert(a.to_multiset() =~= b.to_multiset());
}

} // verus!
