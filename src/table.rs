//! Association lists: the lookup tables of the library, read first match
//! first.
use vstd::prelude::*;

verus! {

/// The value stored under the first occurrence of `k` in `s`.
pub open spec fn assoc<K, V>(s: Seq<(K, V)>, k: K) -> Option<V>
    decreases s.len(),
{
    if s.len() == 0 {
        None
    } else if s[0].0 == k {
        Some(s[0].1)
    } else {
        assoc(s.drop_first(), k)
    }
}

/// Scanning past a non-matching entry does not change the answer.
pub proof fn lemma_assoc_step<K, V>(s: Seq<(K, V)>, i: int, k: K)
    requires
        0 <= i < s.len(),
    ensures
        s[i].0 == k ==> assoc(s.subrange(i, s.len() as int), k) == Some(s[i].1),
        s[i].0 != k ==> assoc(s.subrange(i, s.len() as int), k) == assoc(
            s.subrange(i + 1, s.len() as int),
            k,
        ),
{
    assert(s.subrange(i, s.len() as int).drop_first() =~= s.subrange(i + 1, s.len() as int));
}

/// The whole list is the suffix from zero, and the empty suffix holds nothing.
pub proof fn lemma_assoc_ends<K, V>(s: Seq<(K, V)>, k: K)
    ensures
        assoc(s.subrange(0, s.len() as int), k) == assoc(s, k),
        assoc(s.subrange(s.len() as int, s.len() as int), k) == None::<V>,
{
    assert(s.subrange(0, s.len() as int) =~= s);
}

/// Appending an entry only answers keys that were absent before.
pub proof fn lemma_assoc_push<K, V>(s: Seq<(K, V)>, e: (K, V), k: K)
    ensures
        assoc(s.push(e), k) == (match assoc(s, k) {
            Some(v) => Some(v),
            None => if e.0 == k {
                Some(e.1)
            } else {
                None
            },
        }),
    decreases s.len(),
{
    let t = s.push(e);
    if s.len() > 0 {
        assert(t[0] == s[0]);
        assert(t.drop_first() =~= s.drop_first().push(e));
        lemma_assoc_push(s.drop_first(), e, k);
    } else {
        assert(t[0] == e);
        assert(t.drop_first() =~= Seq::<(K, V)>::empty());
        assert(assoc(t.drop_first(), k) == None::<V>);
        assert(assoc(s, k) == None::<V>);
    }
}

/// Replacing the value of an entry, keeping its key, changes only the
/// answer for that key, and only where that entry is the first for it.
pub proof fn lemma_assoc_update<K, V>(s: Seq<(K, V)>, i: int, v: V, k: K)
    requires
        0 <= i < s.len(),
        forall|j: int| 0 <= j < i ==> s[j].0 != s[i].0,
    ensures
        assoc(s.update(i, (s[i].0, v)), k) == if k == s[i].0 {
            Some(v)
        } else {
            assoc(s, k)
        },
    decreases s.len(),
{
    let t = s.update(i, (s[i].0, v));
    if i > 0 {
        assert(t[0] == s[0]);
        assert(s.drop_first()[i - 1] == s[i]);
        assert(t.drop_first() =~= s.drop_first().update(i - 1, (s[i].0, v)));
        lemma_assoc_update(s.drop_first(), i - 1, v, k);
    } else {
        assert(t[0] == (s[0].0, v));
        assert(t.drop_first() =~= s.drop_first());
    }
}


/// The answer is the value of the first entry with the key.
pub proof fn lemma_assoc_first<K, V>(s: Seq<(K, V)>, k: K, i: int)
    requires
        0 <= i < s.len(),
        s[i].0 == k,
        forall|j: int| 0 <= j < i ==> s[j].0 != k,
    ensures
        assoc(s, k) == Some(s[i].1),
    decreases s.len(),
{
    if i > 0 {
        let t = s.drop_first();
        assert forall|j: int| 0 <= j < i - 1 implies t[j].0 != k by {
            assert(t[j] == s[j + 1]);
        }
        lemma_assoc_first(t, k, i - 1);
    }
}

/// A key that no entry has gets no answer.
pub proof fn lemma_assoc_absent<K, V>(s: Seq<(K, V)>, k: K)
    requires
        forall|j: int| 0 <= j < s.len() ==> s[j].0 != k,
    ensures
        assoc(s, k) is None,
    decreases s.len(),
{
    if s.len() > 0 {
        let t = s.drop_first();
        assert forall|j: int| 0 <= j < t.len() implies t[j].0 != k by {
            assert(t[j] == s[j + 1]);
        }
        lemma_assoc_absent(t, k);
    }
}

} // verus!
