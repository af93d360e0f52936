//! Stable sorting, stated as insertion: each element, in input order, goes
//! in front of the first element already placed that it strictly precedes,
//! so elements that compare equal keep their input order. This is the
//! result every stable sort produces for a strict weak order.

use vstd::prelude::*;

verus! {

/// The first position at or after `from` holding an element that `x`
/// strictly precedes, or the length of `s` when there is none.
pub open spec fn slot<T>(s: Seq<T>, x: T, before: spec_fn(T, T) -> bool, from: int) -> int
    decreases s.len() - from,
{
    if from < 0 || from >= s.len() {
        s.len() as int
    } else if before(x, s[from]) {
        from
    } else {
        slot(s, x, before, from + 1)
    }
}

/// `x` placed into `s` in front of the first element it strictly precedes.
pub open spec fn insert_stable<T>(s: Seq<T>, x: T, before: spec_fn(T, T) -> bool) -> Seq<T> {
    s.insert(slot(s, x, before, 0), x)
}

/// The stable sort of `s` by the strict order `before`.
pub open spec fn stable_sort<T>(s: Seq<T>, before: spec_fn(T, T) -> bool) -> Seq<T>
    decreases s.len(),
{
    if s.len() == 0 {
        s
    } else {
        insert_stable(stable_sort(s.drop_last(), before), s.last(), before)
    }
}

/// No element of `s` strictly precedes an element placed before it.
pub open spec fn sorted_by<T>(s: Seq<T>, before: spec_fn(T, T) -> bool) -> bool {
    forall|i: int, j: int| 0 <= i < j < s.len() ==> !before(#[trigger] s[j], #[trigger] s[i])
}

/// `before` is a strict order: irreflexive and transitive.
pub open spec fn strict_order<T>(before: spec_fn(T, T) -> bool) -> bool {
    &&& forall|a: T| !#[trigger] before(a, a)
    &&& forall|a: T, b: T, c: T| #[trigger] before(a, b) && #[trigger] before(b, c) ==> before(a, c)
}

/// What `slot` finds: a position in range, every earlier element is not
/// strictly preceded by `x`, and `x` strictly precedes the element found.
pub proof fn lemma_slot<T>(s: Seq<T>, x: T, before: spec_fn(T, T) -> bool, from: int)
    requires
        0 <= from <= s.len(),
    ensures
        from <= slot(s, x, before, from) <= s.len(),
        forall|k: int| from <= k < slot(s, x, before, from) ==> !before(x, #[trigger] s[k]),
        slot(s, x, before, from) < s.len() ==> before(x, s[slot(s, x, before, from)]),
    decreases s.len() - from,
{
    if from < s.len() && !before(x, s[from]) {
        lemma_slot(s, x, before, from + 1);
    }
}

/// A stable sort by a strict order is sorted and holds exactly the input
/// elements.
pub proof fn lemma_stable_sort<T>(s: Seq<T>, before: spec_fn(T, T) -> bool)
    requires
        strict_order(before),
    ensures
        stable_sort(s, before).len() == s.len(),
        stable_sort(s, before).to_multiset() == s.to_multiset(),
        sorted_by(stable_sort(s, before), before),
    decreases s.len(),
{
    broadcast use vstd::seq_lib::to_multiset_insert, vstd::seq_lib::to_multiset_build;

    if s.len() > 0 {
        let prev = s.drop_last();
        let x = s.last();
        lemma_stable_sort(prev, before);
        let t = stable_sort(prev, before);
        let j = slot(t, x, before, 0);
        lemma_slot(t, x, before, 0);
        let r = t.insert(j, x);
        assert(stable_sort(s, before) == r);
        assert(s =~= prev.push(x));
        assert forall|a: int, b: int| 0 <= a < b < r.len() implies !before(
            #[trigger] r[b],
            #[trigger] r[a],
        ) by {
            if a < j && b < j {
                assert(r[a] == t[a] && r[b] == t[b]);
            } else if a < j && b == j {
                assert(r[a] == t[a]);
            } else if a < j {
                assert(r[a] == t[a] && r[b] == t[b - 1]);
            } else if a == j {
                assert(r[b] == t[b - 1]);
                if before(t[b - 1], x) {
                    assert(before(x, t[j]));
                    assert(before(t[b - 1], t[j]));
                    if b - 1 == j {
                        assert(!before(t[j], t[j]));
                    }
                }
            } else {
                assert(r[a] == t[a - 1] && r[b] == t[b - 1]);
            }
        }
    }
}

} // verus!
