//! Grouping values by a key of two strings, in key order: the buckets come
//! out sorted by key, and each bucket keeps its values in the order they were
//! added (as an ordered map from key to list, filled by appending, does).

use vstd::multiset::Multiset;
use vstd::prelude::*;

use crate::text::{chars_equal, chars_less, seq_less};

verus! {

/// A key of two strings, as characters.
pub type KeyView = (Seq<char>, Seq<char>);

/// The model of a key.
pub open spec fn key_view(k: (String, String)) -> KeyView {
    (k.0@, k.1@)
}

/// The order of keys: by the first string, then by the second.
pub open spec fn key_less(a: KeyView, b: KeyView) -> bool {
    seq_less(a.0, b.0) || (a.0 == b.0 && seq_less(a.1, b.1))
}

/// The first bucket whose key does not come before `k`, or the number of
/// buckets when there is none.
pub open spec fn insert_pos<T>(bs: Seq<(KeyView, Seq<T>)>, k: KeyView, from: int) -> int
    decreases bs.len() - from,
{
    if from < 0 || from >= bs.len() {
        bs.len() as int
    } else if !key_less(bs[from].0, k) {
        from
    } else {
        insert_pos(bs, k, from + 1)
    }
}

/// `x` added under key `k`: appended to the bucket of `k` when there is one,
/// else a new bucket for `k` is placed before the first bucket with a
/// greater key.
pub open spec fn bucket_insert<T>(bs: Seq<(KeyView, Seq<T>)>, k: KeyView, x: T) -> Seq<(KeyView, Seq<T>)> {
    let j = insert_pos(bs, k, 0);
    if j < bs.len() && bs[j].0 == k {
        bs.update(j, (k, bs[j].1.push(x)))
    } else {
        bs.insert(j, (k, seq![x]))
    }
}

/// The buckets of a sequence of keyed values, filled in order.
pub open spec fn buckets<T>(items: Seq<(KeyView, T)>) -> Seq<(KeyView, Seq<T>)>
    decreases items.len(),
{
    if items.len() == 0 {
        Seq::empty()
    } else {
        bucket_insert(buckets(items.drop_last()), items.last().0, items.last().1)
    }
}

/// The model of keyed values.
pub open spec fn keyed_view<T: View>(items: Seq<((String, String), T)>) -> Seq<(KeyView, T::V)> {
    items.map_values(|e: ((String, String), T)| (key_view(e.0), e.1@))
}

/// The models of a list of values.
pub open spec fn values_view<T: View>(vs: Seq<T>) -> Seq<T::V> {
    vs.map_values(|x: T| x@)
}

/// The model of buckets.
pub open spec fn buckets_view<T: View>(bs: Seq<((String, String), Vec<T>)>) -> Seq<(KeyView, Seq<T::V>)> {
    bs.map_values(|b: ((String, String), Vec<T>)| (key_view(b.0), values_view(b.1@)))
}

/// The values of `v` in reverse order.
pub fn reversed<T>(v: Vec<T>) -> (r: Vec<T>)
    ensures
        r@.len() == v@.len(),
        forall|i: int| 0 <= i < v@.len() ==> #[trigger] r@[i] == v@[v@.len() - 1 - i],
{
    let ghost orig = v@;
    let mut src = v;
    let mut r: Vec<T> = Vec::new();
    while src.len() > 0
        invariant
            src@.len() + r@.len() == orig.len(),
            forall|i: int| 0 <= i < src@.len() ==> #[trigger] src@[i] == orig[i],
            forall|i: int| 0 <= i < r@.len() ==> #[trigger] r@[i] == orig[orig.len() - 1 - i],
        decreases src@.len(),
    {
        let e = src.pop().unwrap();
        r.push(e);
    }
    r
}

fn keys_equal(a: &(String, String), b: &(String, String)) -> (r: bool)
    ensures
        r == (key_view(*a) == key_view(*b)),
{
    let a0 = crate::text::chars_of(a.0.as_str());
    let a1 = crate::text::chars_of(a.1.as_str());
    let b0 = crate::text::chars_of(b.0.as_str());
    let b1 = crate::text::chars_of(b.1.as_str());
    chars_equal(a0.as_slice(), b0.as_slice()) && chars_equal(a1.as_slice(), b1.as_slice())
}

fn key_before(a: &(String, String), b: &(String, String)) -> (r: bool)
    ensures
        r == key_less(key_view(*a), key_view(*b)),
{
    let a0 = crate::text::chars_of(a.0.as_str());
    let a1 = crate::text::chars_of(a.1.as_str());
    let b0 = crate::text::chars_of(b.0.as_str());
    let b1 = crate::text::chars_of(b.1.as_str());
    chars_less(a0.as_slice(), b0.as_slice()) || (chars_equal(a0.as_slice(), b0.as_slice())
        && chars_less(a1.as_slice(), b1.as_slice()))
}

/// Add `x` under key `k` (`map.entry(k).or_default().push(x)`).
pub fn insert_keyed<T: View>(bs: &mut Vec<((String, String), Vec<T>)>, k: (String, String), x: T)
    ensures
        buckets_view(final(bs)@) == bucket_insert(buckets_view(old(bs)@), key_view(k), x@),
{
    let ghost before = buckets_view(bs@);
    let ghost kv = key_view(k);
    let mut j: usize = 0;
    while j < bs.len() && key_before(&bs[j].0, &k)
        invariant
            j <= bs@.len(),
            before == buckets_view(bs@),
            kv == key_view(k),
            insert_pos(before, kv, 0) == insert_pos(before, kv, j as int),
        decreases bs@.len() - j,
    {
        j = j + 1;
    }
    assert(insert_pos(before, kv, j as int) == j as int);
    if j < bs.len() && keys_equal(&bs[j].0, &k) {
        let ghost xv = x@;
        let (key, mut vals) = bs.remove(j);
        let ghost old_vals = vals@;
        vals.push(x);
        assert(values_view(vals@) =~= values_view(old_vals).push(xv));
        bs.insert(j, (key, vals));
        assert(buckets_view(bs@) =~= before.update(j as int, (kv, before[j as int].1.push(xv))));
    } else {
        let ghost xv = x@;
        let mut vals = Vec::new();
        vals.push(x);
        assert(values_view(vals@) =~= seq![xv]);
        bs.insert(j, (k, vals));
        assert(buckets_view(bs@) =~= before.insert(j as int, (kv, seq![xv])));
    }
}

/// Group keyed values into buckets in key order.
pub fn group_by_key<T: View>(items: Vec<((String, String), T)>) -> (bs: Vec<((String, String), Vec<T>)>)
    ensures
        buckets_view(bs@) == buckets(keyed_view(items@)),
{
    let ghost all = keyed_view(items@);
    let mut bs: Vec<((String, String), Vec<T>)> = Vec::new();
    let ghost n = all.len();
    // reverse the items, so that popping yields them in their original order
    let mut rest = reversed(items);
    assert(buckets_view(bs@) =~= Seq::<(KeyView, Seq<T::V>)>::empty());
    assert(all.take(0) =~= Seq::<(KeyView, T::V)>::empty());
    while rest.len() > 0
        invariant
            n == all.len(),
            rest@.len() <= n,
            forall|i: int|
                0 <= i < rest@.len() ==> (key_view(#[trigger] rest@[i].0), rest@[i].1@) == all[n
                    - 1 - i],
            buckets_view(bs@) == buckets(all.take(n - rest@.len())),
        decreases rest@.len(),
    {
        let ghost done = n - rest@.len();
        let (k, x) = rest.pop().unwrap();
        proof {
            assert(all.take(done + 1).drop_last() =~= all.take(done));
            assert(all.take(done + 1).last() == all[done]);
        }
        insert_keyed(&mut bs, k, x);
    }
    assert(all.take(n as int) =~= all);
    bs
}

// ---------- laws ----------

/// The keys of the buckets strictly increase.
pub open spec fn keys_sorted<T>(bs: Seq<(KeyView, Seq<T>)>) -> bool {
    forall|i: int, j: int| 0 <= i < j < bs.len() ==> key_less(#[trigger] bs[i].0, #[trigger] bs[j].0)
}

/// The predicate "has key `k`".
pub open spec fn has_key<T>(k: KeyView) -> spec_fn((KeyView, T)) -> bool {
    |e: (KeyView, T)| e.0 == k
}

/// The values stored under key `k`, in order.
pub open spec fn values_with_key<T>(items: Seq<(KeyView, T)>, k: KeyView) -> Seq<T> {
    items.filter(has_key::<T>(k)).map_values(|e: (KeyView, T)| e.1)
}

pub proof fn lemma_key_less_order(a: KeyView, b: KeyView, c: KeyView)
    ensures
        !key_less(a, a),
        key_less(a, b) ==> !key_less(b, a),
        a != b ==> key_less(a, b) || key_less(b, a),
        key_less(a, b) && key_less(b, c) ==> key_less(a, c),
{
    crate::text::lemma_seq_less_asym(a.0, b.0);
    crate::text::lemma_seq_less_asym(a.1, b.1);
    crate::text::lemma_seq_less_total(a.0, b.0);
    crate::text::lemma_seq_less_total(a.1, b.1);
    if seq_less(a.0, b.0) && seq_less(b.0, c.0) {
        crate::text::lemma_seq_less_trans(a.0, b.0, c.0);
    }
    if seq_less(a.1, b.1) && seq_less(b.1, c.1) {
        crate::text::lemma_seq_less_trans(a.1, b.1, c.1);
    }
    if a.0 == b.0 && a.1 == b.1 {
        assert(a == b);
    }
}

proof fn lemma_insert_pos<T>(bs: Seq<(KeyView, Seq<T>)>, k: KeyView, from: int)
    requires
        0 <= from <= bs.len(),
    ensures
        from <= insert_pos(bs, k, from) <= bs.len(),
        forall|j: int| from <= j < insert_pos(bs, k, from) ==> key_less(bs[j].0, k),
        insert_pos(bs, k, from) < bs.len() ==> !key_less(bs[insert_pos(bs, k, from)].0, k),
    decreases bs.len() - from,
{
    if from < bs.len() && key_less(bs[from].0, k) {
        lemma_insert_pos(bs, k, from + 1);
    }
}

/// The buckets are what an ordered map from key to list gives: their keys
/// strictly increase, every bucket holds exactly the values added under its
/// key (in the order they were added) and is not empty, and every key that
/// was used has a bucket.
pub proof fn lemma_buckets_are_ordered_groups<T>(items: Seq<(KeyView, T)>)
    ensures
        keys_sorted(buckets(items)),
        forall|i: int|
            0 <= i < buckets(items).len() ==> (#[trigger] buckets(items)[i]).1 == values_with_key(
                items,
                buckets(items)[i].0,
            ) && buckets(items)[i].1.len() > 0,
        forall|m: int|
            0 <= m < items.len() ==> exists|i: int|
                0 <= i < buckets(items).len() && #[trigger] buckets(items)[i].0 == (#[trigger] items[m]).0,
    decreases items.len(),
{
    if items.len() > 0 {
        let prev = items.drop_last();
        let e = items.last();
        let k = e.0;
        lemma_buckets_are_ordered_groups(prev);
        let bs = buckets(prev);
        let j = insert_pos(bs, k, 0);
        lemma_insert_pos(bs, k, 0);
        let after = buckets(items);
        assert(items =~= prev.push(e));
        // the filtered values grow by `e` exactly under `k`
        assert forall|kk: KeyView| #[trigger] values_with_key(items, kk) == (if kk == k {
            values_with_key(prev, kk).push(e.1)
        } else {
            values_with_key(prev, kk)
        }) by {
            prev.lemma_filter_push(e, has_key::<T>(kk));
            assert(prev.filter(has_key::<T>(kk)).push(e).map_values(|x: (KeyView, T)| x.1) =~= prev.filter(
                has_key::<T>(kk),
            ).map_values(|x: (KeyView, T)| x.1).push(e.1));
        }
        if j < bs.len() && bs[j].0 == k {
            assert(after == bs.update(j, (k, bs[j].1.push(e.1))));
            assert forall|a: int, b: int| 0 <= a < b < after.len() implies key_less(
                #[trigger] after[a].0,
                #[trigger] after[b].0,
            ) by {
                assert(after[a].0 == bs[a].0 && after[b].0 == bs[b].0);
            }
            assert forall|i: int| 0 <= i < after.len() implies (#[trigger] after[i]).1
                == values_with_key(items, after[i].0) && after[i].1.len() > 0 by {
                if i != j {
                    assert(bs[i].0 != k) by {
                        if i < j {
                            lemma_key_less_order(bs[i].0, k, k);
                        } else {
                            lemma_key_less_order(bs[j].0, bs[i].0, bs[i].0);
                        }
                    }
                }
            }
            assert forall|m: int| 0 <= m < items.len() implies exists|i: int|
                0 <= i < after.len() && #[trigger] after[i].0 == (#[trigger] items[m]).0 by {
                if m < prev.len() {
                    assert(items[m] == prev[m]);
                    let i = choose|i: int| 0 <= i < bs.len() && #[trigger] bs[i].0 == (#[trigger] prev[m]).0;
                    assert(after[i].0 == bs[i].0);
                } else {
                    assert(after[j].0 == items[m].0);
                }
            }
        } else {
            assert(after == bs.insert(j, (k, seq![e.1])));
            // `k` is new: no bucket holds it
            assert forall|i: int| 0 <= i < bs.len() implies bs[i].0 != k by {
                if i < j {
                    lemma_key_less_order(bs[i].0, k, k);
                } else if i > j {
                    lemma_key_less_order(k, bs[j].0, bs[i].0);
                    lemma_key_less_order(bs[j].0, k, bs[i].0);
                    if bs[i].0 == k {
                        assert(key_less(bs[j].0, bs[i].0));
                    }
                }
            }
            if j < bs.len() {
                lemma_key_less_order(bs[j].0, k, k);
            }
            assert forall|a: int, b: int| 0 <= a < b < after.len() implies key_less(
                #[trigger] after[a].0,
                #[trigger] after[b].0,
            ) by {
                if a < j && b < j {
                    assert(after[a] == bs[a] && after[b] == bs[b]);
                } else if a < j && b == j {
                    assert(after[a] == bs[a]);
                } else if a < j {
                    assert(after[a] == bs[a] && after[b] == bs[b - 1]);
                    lemma_key_less_order(bs[a].0, k, bs[b - 1].0);
                    if b - 1 > j {
                        lemma_key_less_order(k, bs[j].0, bs[b - 1].0);
                    }
                } else if a == j {
                    assert(after[b] == bs[b - 1]);
                    if b - 1 > j {
                        lemma_key_less_order(k, bs[j].0, bs[b - 1].0);
                    }
                } else {
                    assert(after[a] == bs[a - 1] && after[b] == bs[b - 1]);
                }
            }
            assert(values_with_key(prev, k).len() == 0) by {
                if values_with_key(prev, k).len() > 0 {
                    let f = prev.filter(has_key::<T>(k));
                    assert(f.len() > 0);
                    prev.lemma_filter_pred(has_key::<T>(k), 0);
                    assert(f.contains(f[0]));
                    prev.lemma_filter_contains_rev(has_key::<T>(k), f[0]);
                    let m = choose|m: int| 0 <= m < prev.len() && prev[m] == f[0];
                    let i = choose|i: int| 0 <= i < bs.len() && #[trigger] bs[i].0 == (#[trigger] prev[m]).0;
                }
            }
            assert(values_with_key(items, k) =~= seq![e.1]);
            assert forall|i: int| 0 <= i < after.len() implies (#[trigger] after[i]).1
                == values_with_key(items, after[i].0) && after[i].1.len() > 0 by {
                if i < j {
                    assert(after[i] == bs[i]);
                } else if i > j {
                    assert(after[i] == bs[i - 1]);
                }
            }
            assert forall|m: int| 0 <= m < items.len() implies exists|i: int|
                0 <= i < after.len() && #[trigger] after[i].0 == (#[trigger] items[m]).0 by {
                if m < prev.len() {
                    assert(items[m] == prev[m]);
                    let i = choose|i: int| 0 <= i < bs.len() && #[trigger] bs[i].0 == (#[trigger] prev[m]).0;
                    if i < j {
                        assert(after[i] == bs[i]);
                    } else {
                        assert(after[i + 1] == bs[i]);
                    }
                } else {
                    assert(after[j].0 == items[m].0);
                }
            }
        }
    }
}

/// Every value stored under key `k` was added under `k`.
pub proof fn lemma_values_with_key_added<T>(items: Seq<(KeyView, T)>, k: KeyView)
    ensures
        forall|j: int|
            0 <= j < values_with_key(items, k).len() ==> items.contains(
                (k, #[trigger] values_with_key(items, k)[j]),
            ),
{
    let f = items.filter(has_key::<T>(k));
    assert forall|j: int| 0 <= j < values_with_key(items, k).len() implies items.contains(
        (k, #[trigger] values_with_key(items, k)[j]),
    ) by {
        items.lemma_filter_pred(has_key::<T>(k), j);
        assert(f.contains(f[j]));
        items.lemma_filter_contains_rev(has_key::<T>(k), f[j]);
        assert(f[j] == (k, values_with_key(items, k)[j]));
    }
}

/// All values held by the buckets, counted with multiplicity.
pub open spec fn bucket_values<T>(bs: Seq<(KeyView, Seq<T>)>) -> Multiset<T>
    decreases bs.len(),
{
    if bs.len() == 0 {
        Multiset::empty()
    } else {
        bucket_values(bs.drop_last()).add(bs.last().1.to_multiset())
    }
}

/// The values of keyed items.
pub open spec fn item_values<T>(items: Seq<(KeyView, T)>) -> Seq<T> {
    items.map_values(|e: (KeyView, T)| e.1)
}

/// The empty sequence has the empty multiset.
pub proof fn lemma_empty_multiset<T>()
    ensures
        Seq::<T>::empty().to_multiset() == Multiset::<T>::empty(),
{
    broadcast use vstd::seq_lib::to_multiset_len, vstd::multiset::lemma_multiset_empty_len;

    assert(Seq::<T>::empty().to_multiset().len() == 0);
}

proof fn lemma_bucket_values_update<T>(bs: Seq<(KeyView, Seq<T>)>, j: int, k: KeyView, x: T)
    requires
        0 <= j < bs.len(),
    ensures
        bucket_values(bs.update(j, (k, bs[j].1.push(x)))) == bucket_values(bs).insert(x),
    decreases bs.len(),
{
    broadcast use vstd::multiset::group_multiset_axioms, vstd::seq_lib::to_multiset_build;

    let nb = bs.update(j, (k, bs[j].1.push(x)));
    if j == bs.len() - 1 {
        assert(nb.drop_last() =~= bs.drop_last());
        assert(bucket_values(nb) =~= bucket_values(bs).insert(x));
    } else {
        lemma_bucket_values_update(bs.drop_last(), j, k, x);
        assert(nb.drop_last() =~= bs.drop_last().update(j, (k, bs[j].1.push(x))));
        assert(bucket_values(nb) =~= bucket_values(bs).insert(x));
    }
}

proof fn lemma_bucket_values_insert<T>(bs: Seq<(KeyView, Seq<T>)>, j: int, k: KeyView, x: T)
    requires
        0 <= j <= bs.len(),
    ensures
        bucket_values(bs.insert(j, (k, seq![x]))) == bucket_values(bs).insert(x),
    decreases bs.len(),
{
    broadcast use vstd::multiset::group_multiset_axioms, vstd::seq_lib::to_multiset_build;

    let nb = bs.insert(j, (k, seq![x]));
    assert(seq![x] =~= Seq::<T>::empty().push(x));
    lemma_empty_multiset::<T>();
    if j == bs.len() {
        assert(nb.drop_last() =~= bs);
        assert(bucket_values(nb) =~= bucket_values(bs).insert(x));
    } else {
        lemma_bucket_values_insert(bs.drop_last(), j, k, x);
        assert(nb.drop_last() =~= bs.drop_last().insert(j, (k, seq![x])));
        assert(nb.last() == bs.last());
        assert(bucket_values(nb) =~= bucket_values(bs).insert(x));
    }
}

/// Bucketing neither loses nor invents values: the buckets hold exactly the
/// values that were added, with multiplicity.
pub proof fn lemma_bucket_values<T>(items: Seq<(KeyView, T)>)
    ensures
        bucket_values(buckets(items)) == item_values(items).to_multiset(),
    decreases items.len(),
{
    broadcast use vstd::multiset::group_multiset_axioms, vstd::seq_lib::to_multiset_build;

    if items.len() == 0 {
        assert(item_values(items) =~= Seq::<T>::empty());
        lemma_empty_multiset::<T>();
    } else {
        let prev = items.drop_last();
        let e = items.last();
        lemma_bucket_values(prev);
        let bs = buckets(prev);
        let j = insert_pos(bs, e.0, 0);
        lemma_insert_pos(bs, e.0, 0);
        if j < bs.len() && bs[j].0 == e.0 {
            lemma_bucket_values_update(bs, j, e.0, e.1);
        } else {
            lemma_bucket_values_insert(bs, j, e.0, e.1);
        }
        assert(item_values(items) =~= item_values(prev).push(e.1));
    }
}

} // verus!
