//! Stable ordering of keyed items, used wherever the timeline must be listed in
//! beat order while simultaneous items keep the order in which they were made.
use vstd::prelude::*;

verus! {

broadcast use vstd::seq_lib::group_to_multiset_ensures;

/// Keys never decrease along the sequence.
pub open spec fn keys_sorted<T>(s: Seq<(i128, T)>) -> bool {
    forall|i: int, j: int| 0 <= i <= j < s.len() ==> s[i].0 <= s[j].0
}

/// Places `x` after every element whose key is at most the key of `x`.
pub open spec fn insert_by_key<T>(s: Seq<(i128, T)>, x: (i128, T)) -> Seq<(i128, T)>
    decreases s.len(),
{
    if s.len() == 0 {
        seq![x]
    } else if s.last().0 <= x.0 {
        s.push(x)
    } else {
        insert_by_key(s.drop_last(), x).push(s.last())
    }
}

/// Stable sort by key: the result is ordered by key, and items with equal keys
/// keep their relative input order.
pub open spec fn stable_sort_by_key<T>(s: Seq<(i128, T)>) -> Seq<(i128, T)>
    decreases s.len(),
{
    if s.len() == 0 {
        s
    } else {
        insert_by_key(stable_sort_by_key(s.drop_last()), s.last())
    }
}

proof fn lemma_insert_position<T>(s: Seq<(i128, T)>, x: (i128, T), j: int)
    requires
        keys_sorted(s),
        0 <= j <= s.len(),
        forall|i: int| j <= i < s.len() ==> s[i].0 > x.0,
        j == 0 || s[j - 1].0 <= x.0,
    ensures
        insert_by_key(s, x) == s.insert(j, x),
    decreases s.len(),
{
    if s.len() == 0 {
        assert(s.insert(j, x) =~= seq![x]);
    } else if s.last().0 <= x.0 {
        assert(s.insert(j, x) =~= s.push(x));
    } else {
        let d = s.drop_last();
        lemma_insert_position(d, x, j);
        assert(d.insert(j, x).push(s.last()) =~= s.insert(j, x));
    }
}

/// Inserting into a key-ordered sequence keeps it ordered and adds exactly `x`.
pub proof fn lemma_insert_by_key<T>(s: Seq<(i128, T)>, x: (i128, T))
    requires
        keys_sorted(s),
    ensures
        keys_sorted(insert_by_key(s, x)),
        insert_by_key(s, x).to_multiset() == s.to_multiset().insert(x),
        insert_by_key(s, x).len() == s.len() + 1,
        forall|i: int|
            0 <= i < insert_by_key(s, x).len() ==> #[trigger] insert_by_key(s, x)[i].0 <= x.0
                || insert_by_key(s, x)[i].0 <= s.last().0,
    decreases s.len(),
{
    if s.len() == 0 {
        assert(seq![x] =~= Seq::<(i128, T)>::empty().push(x));
    } else if s.last().0 <= x.0 {
    } else {
        let d = s.drop_last();
        lemma_insert_by_key(d, x);
        let r = insert_by_key(d, x);
        assert(s =~= d.push(s.last()));
        assert forall|i: int| 0 <= i < r.len() implies #[trigger] r[i].0 <= s.last().0 by {
            if d.len() > 0 {
                assert(d.last().0 <= s.last().0);
            }
        }
    }
}

/// The stable sort orders by key and is a permutation of its input.
pub proof fn lemma_stable_sort<T>(s: Seq<(i128, T)>)
    ensures
        keys_sorted(stable_sort_by_key(s)),
        stable_sort_by_key(s).to_multiset() == s.to_multiset(),
        stable_sort_by_key(s).len() == s.len(),
    decreases s.len(),
{
    if s.len() > 0 {
        let d = s.drop_last();
        lemma_stable_sort(d);
        lemma_insert_by_key(stable_sort_by_key(d), s.last());
        assert(s =~= d.push(s.last()));
    }
}

/// Applies `f` to the payload of every keyed item, keeping the keys.
pub open spec fn map_payload<T, U>(s: Seq<(i128, T)>, f: spec_fn(T) -> U) -> Seq<(i128, U)> {
    s.map_values(|p: (i128, T)| (p.0, f(p.1)))
}

proof fn lemma_insert_map_payload<T, U>(s: Seq<(i128, T)>, x: (i128, T), f: spec_fn(T) -> U)
    ensures
        insert_by_key(map_payload(s, f), (x.0, f(x.1))) == map_payload(insert_by_key(s, x), f),
    decreases s.len(),
{
    let m = map_payload(s, f);
    if s.len() == 0 {
        assert(map_payload(seq![x], f) =~= seq![(x.0, f(x.1))]);
    } else if s.last().0 <= x.0 {
        assert(m.last().0 == s.last().0);
        assert(map_payload(s.push(x), f) =~= m.push((x.0, f(x.1))));
    } else {
        let d = s.drop_last();
        assert(m.drop_last() =~= map_payload(d, f));
        lemma_insert_map_payload(d, x, f);
        assert(map_payload(insert_by_key(d, x).push(s.last()), f) =~= map_payload(insert_by_key(d, x), f).push(
            m.last(),
        ));
    }
}

/// Sorting by key commutes with changing the payloads.
pub proof fn lemma_sort_map_payload<T, U>(s: Seq<(i128, T)>, f: spec_fn(T) -> U)
    ensures
        stable_sort_by_key(map_payload(s, f)) == map_payload(stable_sort_by_key(s), f),
    decreases s.len(),
{
    if s.len() == 0 {
        assert(map_payload(s, f) =~= Seq::<(i128, U)>::empty());
    } else {
        let d = s.drop_last();
        let m = map_payload(s, f);
        assert(m.drop_last() =~= map_payload(d, f));
        lemma_sort_map_payload(d, f);
        lemma_insert_map_payload(stable_sort_by_key(d), s.last(), f);
    }
}

/// Stable sort by key of a vector of keyed items.
pub fn sort_by_key_stable<T>(items: Vec<(i128, T)>) -> (r: Vec<(i128, T)>)
    ensures
        r@ == stable_sort_by_key(items@),
        keys_sorted(r@),
        r@.to_multiset() == items@.to_multiset(),
{
    let ghost orig = items@;
    let mut rest = items;
    let mut sorted: Vec<(i128, T)> = Vec::new();
    proof {
        lemma_stable_sort(orig.take(0));
        assert(orig.take(0) =~= Seq::<(i128, T)>::empty());
        assert(orig.skip(0) =~= orig);
    }
    while rest.len() > 0
        invariant
            0 <= orig.len() - rest@.len() <= orig.len(),
            rest@ == orig.skip(orig.len() - rest@.len()),
            sorted@ == stable_sort_by_key(orig.take(orig.len() - rest@.len())),
            keys_sorted(sorted@),
        decreases rest.len(),
    {
        let ghost k = orig.len() - rest@.len();
        let x = rest.remove(0);
        assert(x == orig[k]);
        let mut j = sorted.len();
        while j > 0 && sorted[j - 1].0 > x.0
            invariant
                0 <= j <= sorted@.len(),
                forall|i: int| j <= i < sorted@.len() ==> sorted@[i].0 > x.0,
            decreases j,
        {
            j = j - 1;
        }
        proof {
            lemma_insert_position(sorted@, x, j as int);
            lemma_insert_by_key(sorted@, x);
            assert(orig.take(k + 1).drop_last() =~= orig.take(k));
            assert(orig.skip(k + 1) =~= orig.skip(k).remove(0));
        }
        sorted.insert(j, x);
    }
    proof {
        assert(orig.take(orig.len() as int) =~= orig);
        lemma_stable_sort(orig);
    }
    sorted
}

/// Values never decrease along the sequence.
pub open spec fn values_sorted(s: Seq<i128>) -> bool {
    forall|i: int, j: int| 0 <= i <= j < s.len() ==> s[i] <= s[j]
}

/// Sorts values in increasing order.
pub fn sort_values(values: Vec<i128>) -> (r: Vec<i128>)
    ensures
        values_sorted(r@),
        r@.to_multiset() == values@.to_multiset(),
{
    let mut sorted: Vec<i128> = Vec::new();
    let mut k: usize = 0;
    while k < values.len()
        invariant
            0 <= k <= values@.len(),
            values_sorted(sorted@),
            sorted@.to_multiset() == values@.take(k as int).to_multiset(),
        decreases values@.len() - k,
    {
        let x = values[k];
        let mut j = sorted.len();
        while j > 0 && sorted[j - 1] > x
            invariant
                0 <= j <= sorted@.len(),
                forall|i: int| j <= i < sorted@.len() ==> sorted@[i] > x,
            decreases j,
        {
            j = j - 1;
        }
        let ghost before = sorted@;
        sorted.insert(j, x);
        assert(values@.take(k + 1) =~= values@.take(k as int).push(x));
        assert forall|a: int, b: int| 0 <= a <= b < sorted@.len() implies sorted@[a] <= sorted@[b] by {
            if a < j && b > j {
                assert(sorted@[a] == before[a]);
                assert(sorted@[b] == before[b - 1]);
            } else if a < j && b == j {
                assert(sorted@[a] == before[a]);
                assert(before[j - 1] <= x);
            } else if a == j && b > j {
                assert(sorted@[b] == before[b - 1]);
            } else if a > j {
                assert(sorted@[a] == before[a - 1]);
                assert(sorted@[b] == before[b - 1]);
            }
        }
        k = k + 1;
    }
    assert(values@.take(values@.len() as int) =~= values@);
    sorted
}

/// The payloads of keyed items, in order.
pub fn payloads<T>(items: Vec<(i128, T)>) -> (r: Vec<T>)
    ensures
        r@ == items@.map_values(|p: (i128, T)| p.1),
{
    let ghost all = items@;
    let mut rest = items;
    let mut out: Vec<T> = Vec::new();
    while rest.len() > 0
        invariant
            out@.len() + rest@.len() == all.len(),
            rest@ == all.skip(out@.len() as int),
            out@ == all.take(out@.len() as int).map_values(|p: (i128, T)| p.1),
        decreases rest@.len(),
    {
        let ghost n = out@.len() as int;
        let (_key, x) = rest.remove(0);
        assert(rest@ =~= all.skip(n + 1));
        out.push(x);
        assert(out@ =~= all.take(n + 1).map_values(|p: (i128, T)| p.1));
    }
    assert(all.take(all.len() as int) =~= all);
    out
}

} // verus!
