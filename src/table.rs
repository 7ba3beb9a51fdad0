use vstd::prelude::*;

verus! {

/// The value that a table of `(key, value)` records holds for `k`: the value of the
/// last record with that key, `None` where there is none or it was cleared.
pub open spec fn last_value<K, V>(s: Seq<(K, Option<V>)>, k: K) -> Option<V>
    decreases s.len(),
{
    if s.len() == 0 {
        None
    } else if s.last().0 == k {
        s.last().1
    } else {
        last_value(s.drop_last(), k)
    }
}

/// `i` is the last record of `s` with key `k`.
pub open spec fn is_last_with<K, V>(s: Seq<(K, Option<V>)>, i: int, k: K) -> bool {
    &&& 0 <= i < s.len()
    &&& s[i].0 == k
    &&& forall|j: int| i < j < s.len() ==> s[j].0 != k
}

pub proof fn lemma_last_value_push<K, V>(s: Seq<(K, Option<V>)>, e: (K, Option<V>), k: K)
    ensures
        last_value(s.push(e), k) == if e.0 == k {
            e.1
        } else {
            last_value(s, k)
        },
{
    assert(s.push(e).drop_last() == s);
}

pub proof fn lemma_last_value_absent<K, V>(s: Seq<(K, Option<V>)>, k: K)
    requires
        forall|j: int| 0 <= j < s.len() ==> s[j].0 != k,
    ensures
        last_value(s, k) is None,
    decreases s.len(),
{
    if s.len() > 0 {
        lemma_last_value_absent(s.drop_last(), k);
    }
}

pub proof fn lemma_last_value_at<K, V>(s: Seq<(K, Option<V>)>, i: int, k: K)
    requires
        is_last_with(s, i, k),
    ensures
        last_value(s, k) == s[i].1,
    decreases s.len(),
{
    if i < s.len() - 1 {
        lemma_last_value_at(s.drop_last(), i, k);
    }
}

/// A value held for `k` stands in some record of the table.
pub proof fn lemma_last_value_some<K, V>(s: Seq<(K, Option<V>)>, k: K)
    requires
        last_value(s, k) is Some,
    ensures
        exists|i: int| is_last_with(s, i, k) && s[i].1 == last_value(s, k),
    decreases s.len(),
{
    if s.last().0 == k {
        assert(is_last_with(s, s.len() - 1, k));
    } else {
        lemma_last_value_some(s.drop_last(), k);
        let i = choose|i: int| is_last_with(s.drop_last(), i, k) && s.drop_last()[i].1 == last_value(s.drop_last(), k);
        assert forall|j: int| i < j < s.len() implies s[j].0 != k by {
            if j < s.len() - 1 {
                assert(s[j] == s.drop_last()[j]);
            }
        }
        assert(is_last_with(s, i, k));
    }
}

/// Writing the last record of a key changes what the table holds for that key alone.
pub proof fn lemma_last_value_update<K, V>(s: Seq<(K, Option<V>)>, i: int, e: (K, Option<V>), k: K)
    requires
        is_last_with(s, i, e.0),
    ensures
        last_value(s.update(i, e), k) == if e.0 == k {
            e.1
        } else {
            last_value(s, k)
        },
    decreases s.len(),
{
    let t = s.update(i, e);
    if e.0 == k {
        assert(is_last_with(t, i, k));
        lemma_last_value_at(t, i, k);
    } else if i < s.len() - 1 {
        assert(t.drop_last() == s.drop_last().update(i, e));
        lemma_last_value_update(s.drop_last(), i, e, k);
    } else {
        assert(t.drop_last() == s.drop_last());
    }
}

} // verus!
