use vstd::prelude::*;

verus! {

/// The position at which an element of key `k` goes into `s` so that it
/// comes after every element whose key is at most `k`: the first position,
/// scanning from the front, whose key is greater than `k`.
pub open spec fn insert_position<T>(s: Seq<T>, k: int, key: spec_fn(T) -> int) -> int
    decreases s.len(),
{
    if s.len() == 0 {
        0
    } else if key(s[0]) > k {
        0
    } else {
        1 + insert_position(s.drop_first(), k, key)
    }
}

/// Stable insertion sort by `key`: the elements are taken in order and each
/// goes after the elements already placed whose key is not greater than its.
pub open spec fn sorted_by<T>(s: Seq<T>, key: spec_fn(T) -> int) -> Seq<T>
    decreases s.len(),
{
    if s.len() == 0 {
        Seq::empty()
    } else {
        let prev = sorted_by(s.drop_last(), key);
        prev.insert(insert_position(prev, key(s.last()), key), s.last())
    }
}

/// `s` is in non-decreasing order of `key`.
pub open spec fn is_sorted_by<T>(s: Seq<T>, key: spec_fn(T) -> int) -> bool {
    forall|i: int, j: int| 0 <= i <= j < s.len() ==> key(s[i]) <= key(s[j])
}

proof fn lemma_insert_position_bounds<T>(s: Seq<T>, k: int, key: spec_fn(T) -> int)
    ensures
        0 <= insert_position(s, k, key) <= s.len(),
        forall|i: int| 0 <= i < insert_position(s, k, key) ==> key(s[i]) <= k,
        insert_position(s, k, key) < s.len() ==> key(s[insert_position(s, k, key)]) > k,
    decreases s.len(),
{
    if s.len() > 0 && key(s[0]) <= k {
        lemma_insert_position_bounds(s.drop_first(), k, key);
        assert forall|i: int| 0 <= i < insert_position(s, k, key) implies key(s[i]) <= k by {
            if i > 0 {
                assert(s[i] == s.drop_first()[i - 1]);
            }
        }
    }
}

/// Sorting keeps the length.
pub proof fn lemma_sorted_by_len<T>(s: Seq<T>, key: spec_fn(T) -> int)
    ensures
        sorted_by(s, key).len() == s.len(),
    decreases s.len(),
{
    if s.len() > 0 {
        lemma_sorted_by_len(s.drop_last(), key);
        lemma_insert_position_bounds(sorted_by(s.drop_last(), key), key(s.last()), key);
    }
}

/// Sorting yields the same elements, each as many times.
pub proof fn lemma_sorted_by_permutes<T>(s: Seq<T>, key: spec_fn(T) -> int)
    ensures
        sorted_by(s, key).to_multiset() == s.to_multiset(),
    decreases s.len(),
{
    if s.len() > 0 {
        let prev = sorted_by(s.drop_last(), key);
        lemma_sorted_by_permutes(s.drop_last(), key);
        lemma_insert_position_bounds(prev, key(s.last()), key);
        let p = insert_position(prev, key(s.last()), key);
        vstd::seq_lib::to_multiset_insert(prev, p, s.last());
        vstd::seq_lib::to_multiset_build(s.drop_last(), s.last());
        assert(s.drop_last().push(s.last()) =~= s);
    } else {
        assert(s =~= Seq::<T>::empty());
    }
}

/// The sorted sequence is in non-decreasing order of the key.
pub proof fn lemma_sorted_by_sorted<T>(s: Seq<T>, key: spec_fn(T) -> int)
    ensures
        is_sorted_by(sorted_by(s, key), key),
    decreases s.len(),
{
    if s.len() > 0 {
        let prev = sorted_by(s.drop_last(), key);
        let k = key(s.last());
        lemma_sorted_by_sorted(s.drop_last(), key);
        lemma_insert_position_bounds(prev, k, key);
        let p = insert_position(prev, k, key);
        let r = prev.insert(p, s.last());
        assert forall|i: int, j: int| 0 <= i <= j < r.len() implies key(r[i]) <= key(r[j]) by {
            if i < p && j < p {
            } else if i < p && j == p {
            } else if i < p && j > p {
                assert(r[j] == prev[j - 1]);
            } else if i == p && j == p {
            } else if i == p && j > p {
                assert(r[j] == prev[j - 1]);
                if p < prev.len() {
                    assert(key(prev[p]) > k);
                    assert(key(prev[p]) <= key(prev[j - 1]));
                }
            } else {
                assert(r[i] == prev[i - 1]);
                assert(r[j] == prev[j - 1]);
            }
        }
    }
}

/// Sorts `items` stably by the key that `keys` holds for each of them:
/// afterwards `items` holds `sorted_by` of its former contents.
pub fn stable_sort<T>(items: &mut Vec<T>, keys: &mut Vec<i128>, Ghost(key): Ghost<spec_fn(T) -> int>)
    requires
        old(items)@.len() == old(keys)@.len(),
        forall|i: int| 0 <= i < old(items)@.len() ==> old(keys)@[i] == key(old(items)@[i]),
    ensures
        final(items)@ == sorted_by(old(items)@, key),
        final(keys)@.len() == final(items)@.len(),
        forall|i: int| 0 <= i < final(items)@.len() ==> final(keys)@[i] == key(final(items)@[i]),
{
    let ghost orig = items@;
    let n = items.len();
    let mut out: Vec<T> = Vec::new();
    let mut out_keys: Vec<i128> = Vec::new();
    let mut i: usize = 0;
    while i < n
        invariant
            n == orig.len(),
            i <= n,
            items@ == orig.skip(i as int),
            keys@.len() == items@.len(),
            forall|m: int| 0 <= m < items@.len() ==> keys@[m] == key(items@[m]),
            out@ == sorted_by(orig.take(i as int), key),
            out_keys@.len() == out@.len(),
            forall|m: int| 0 <= m < out@.len() ==> out_keys@[m] == key(out@[m]),
        decreases n - i,
    {
        proof {
            lemma_sorted_by_len(orig.take(i as int), key);
        }
        let x = items.remove(0);
        let k = keys.remove(0);
        let mut j: usize = 0;
        while j < out_keys.len() && out_keys[j] <= k
            invariant
                j <= out_keys.len(),
                out_keys@.len() == out@.len(),
                forall|m: int| 0 <= m < out@.len() ==> out_keys@[m] == key(out@[m]),
                forall|m: int| 0 <= m < j ==> key(out@[m]) <= k,
            decreases out_keys.len() - j,
        {
            j += 1;
        }
        proof {
            lemma_insert_position_bounds(out@, k as int, key);
            let p = insert_position(out@, k as int, key);
            if j < p {
                assert(key(out@[j as int]) <= k);
            }
            if p < j {
                assert(key(out@[p]) <= k);
            }
            assert(j == p);
            assert(orig.take(i + 1).drop_last() =~= orig.take(i as int));
            assert(orig.take(i + 1).last() == x);
        }
        out.insert(j, x);
        out_keys.insert(j, k);
        i += 1;
        proof {
            assert(items@ =~= orig.skip(i as int));
            assert forall|m: int| 0 <= m < out@.len() implies out_keys@[m] == key(out@[m]) by {
                if m < j {
                } else if m > j {
                }
            }
        }
    }
    assert(orig.take(n as int) =~= orig);
    *items = out;
    *keys = out_keys;
}

} // verus!
