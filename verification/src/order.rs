//! Stable orderings by an integer key, as `sort_by` with a key comparison
//! produces them, and the first `n` items of a sequence.

use vstd::prelude::*;

verus! {

/// `x` put into `s` after every item whose key is not smaller than its own.
pub open spec fn insert_desc<T>(s: Seq<T>, x: T, key: spec_fn(T) -> int) -> Seq<T>
    decreases s.len(),
{
    if s.len() == 0 {
        seq![x]
    } else if key(s.last()) < key(x) {
        insert_desc(s.drop_last(), x, key).push(s.last())
    } else {
        s.push(x)
    }
}

/// `s` ordered by descending key; items with equal keys keep their order.
pub open spec fn sort_desc<T>(s: Seq<T>, key: spec_fn(T) -> int) -> Seq<T>
    decreases s.len(),
{
    if s.len() == 0 {
        s
    } else {
        insert_desc(sort_desc(s.drop_last(), key), s.last(), key)
    }
}

/// `s` ordered by ascending key; items with equal keys keep their order.
pub open spec fn sort_asc<T>(s: Seq<T>, key: spec_fn(T) -> int) -> Seq<T> {
    sort_desc(s, |t: T| -key(t))
}

/// The first `n` items of `s`, or all of them when there are fewer.
pub open spec fn first_n<T>(s: Seq<T>, n: int) -> Seq<T> {
    if s.len() <= n {
        s
    } else {
        s.take(n)
    }
}

/// Where `insert_desc` puts `x`: after the last item whose key is not
/// smaller than the key of `x`.
pub proof fn lemma_insert_desc_at<T>(s: Seq<T>, x: T, key: spec_fn(T) -> int, j: int)
    requires
        0 <= j <= s.len(),
        forall|k: int| j <= k < s.len() ==> key(#[trigger] s[k]) < key(x),
        j > 0 ==> !(key(s[j - 1]) < key(x)),
    ensures
        insert_desc(s, x, key) == s.insert(j, x),
    decreases s.len() - j,
{
    if s.len() == 0 {
        assert(s.insert(j, x) =~= seq![x]);
    } else if j == s.len() {
        assert(s.insert(j, x) =~= s.push(x));
    } else {
        let t = s.drop_last();
        assert(key(s[s.len() - 1]) < key(x));
        assert forall|k: int| j <= k < t.len() implies key(#[trigger] t[k]) < key(x) by {
            assert(t[k] == s[k]);
        }
        lemma_insert_desc_at(t, x, key, j);
        assert(t.insert(j, x).push(s.last()) =~= s.insert(j, x));
    }
}

/// One step of building `sort_desc` item by item.
pub proof fn lemma_sort_desc_push<T>(s: Seq<T>, x: T, key: spec_fn(T) -> int)
    ensures
        sort_desc(s.push(x), key) == insert_desc(sort_desc(s, key), x, key),
{
    assert(s.push(x).drop_last() =~= s);
}

/// Sorting keeps the number of items.
pub proof fn lemma_sort_desc_len<T>(s: Seq<T>, key: spec_fn(T) -> int)
    ensures
        sort_desc(s, key).len() == s.len(),
    decreases s.len(),
{
    if s.len() > 0 {
        lemma_sort_desc_len(s.drop_last(), key);
        lemma_insert_desc_len(sort_desc(s.drop_last(), key), s.last(), key);
    }
}

proof fn lemma_insert_desc_len<T>(s: Seq<T>, x: T, key: spec_fn(T) -> int)
    ensures
        insert_desc(s, x, key).len() == s.len() + 1,
    decreases s.len(),
{
    if s.len() > 0 && key(s.last()) < key(x) {
        lemma_insert_desc_len(s.drop_last(), x, key);
    }
}

/// Whether `s` is ordered by descending key.
pub open spec fn sorted_desc<T>(s: Seq<T>, key: spec_fn(T) -> int) -> bool {
    forall|i: int, j: int| 0 <= i < j < s.len() ==> key(#[trigger] s[i]) >= key(#[trigger] s[j])
}

/// Into a sorted sequence, `insert_desc` puts `x` after the items whose key
/// is not smaller and before those whose key is smaller.
proof fn lemma_insert_desc_split<T>(s: Seq<T>, x: T, key: spec_fn(T) -> int) -> (j: int)
    requires
        sorted_desc(s, key),
    ensures
        0 <= j <= s.len(),
        insert_desc(s, x, key) == s.insert(j, x),
        forall|k: int| 0 <= k < j ==> key(#[trigger] s[k]) >= key(x),
        forall|k: int| j <= k < s.len() ==> key(#[trigger] s[k]) < key(x),
    decreases s.len(),
{
    if s.len() == 0 {
        assert(s.insert(0, x) =~= seq![x]);
        0
    } else if key(s.last()) < key(x) {
        let t = s.drop_last();
        assert(sorted_desc(t, key)) by {
            assert forall|i: int, k: int| 0 <= i < k < t.len() implies key(#[trigger] t[i]) >= key(#[trigger] t[k]) by {
                assert(t[i] == s[i] && t[k] == s[k]);
            }
        }
        let j = lemma_insert_desc_split(t, x, key);
        assert(t.insert(j, x).push(s.last()) =~= s.insert(j, x));
        assert forall|k: int| 0 <= k < j implies key(#[trigger] s[k]) >= key(x) by {
            assert(t[k] == s[k]);
        }
        assert forall|k: int| j <= k < s.len() implies key(#[trigger] s[k]) < key(x) by {
            if k < s.len() - 1 {
                assert(t[k] == s[k]);
            }
        }
        j
    } else {
        assert(s.insert(s.len() as int, x) =~= s.push(x));
        assert forall|k: int| 0 <= k < s.len() implies key(#[trigger] s[k]) >= key(x) by {
            if k < s.len() - 1 {
                assert(key(s[k]) >= key(s[s.len() - 1]));
            }
        }
        s.len() as int
    }
}

/// A stable sort by descending key gives the same items, ordered.
pub proof fn law_sort_desc<T>(s: Seq<T>, key: spec_fn(T) -> int)
    ensures
        sorted_desc(sort_desc(s, key), key),
        sort_desc(s, key).to_multiset() == s.to_multiset(),
    decreases s.len(),
{
    broadcast use vstd::seq_lib::to_multiset_build, vstd::seq_lib::to_multiset_insert;

    if s.len() == 0 {
        assert(sorted_desc(s, key));
    } else {
        let t = s.drop_last();
        law_sort_desc(t, key);
        let r = sort_desc(t, key);
        let j = lemma_insert_desc_split(r, s.last(), key);
        let u = r.insert(j, s.last());
        assert forall|a: int, b: int| 0 <= a < b < u.len() implies key(#[trigger] u[a]) >= key(#[trigger] u[b]) by {
            if a < j && b < j {
                assert(u[a] == r[a] && u[b] == r[b]);
            } else if a < j && b == j {
                assert(u[a] == r[a]);
            } else if a < j {
                assert(u[a] == r[a] && u[b] == r[b - 1]);
            } else if a == j {
                assert(u[b] == r[b - 1]);
            } else {
                assert(u[a] == r[a - 1] && u[b] == r[b - 1]);
            }
        }
        assert(s == t.push(s.last()));
        assert(u.to_multiset() == r.to_multiset().insert(s.last()));
    }
}

} // verus!
