//! Storage maps as association vectors with unique keys: lookup, framing
//! lemmas for the three edits the engine makes (update in place, append,
//! removal), and an indexed search.

use vstd::prelude::*;

verus! {

/// No key occurs twice.
pub open spec fn alist_keys_unique<T>(s: Seq<(u64, T)>) -> bool {
    forall|i: int, j: int| 0 <= i < j < s.len() ==> (#[trigger] s[i]).0 != (#[trigger] s[j]).0
}

/// The value stored under `key`, if any.
pub open spec fn alist_find<T>(s: Seq<(u64, T)>, key: u64) -> Option<T>
    decreases s.len(),
{
    if s.len() == 0 {
        Option::None
    } else if s[0].0 == key {
        Option::Some(s[0].1)
    } else {
        alist_find(s.drop_first(), key)
    }
}

/// If `key` sits at `i` and nowhere earlier, lookup finds that entry.
pub proof fn lemma_alist_find_at<T>(s: Seq<(u64, T)>, key: u64, i: int)
    requires
        0 <= i < s.len(),
        s[i].0 == key,
        forall|j: int| 0 <= j < i ==> (#[trigger] s[j]).0 != key,
    ensures
        alist_find(s, key) == Option::Some(s[i].1),
    decreases i,
{
    if i > 0 {
        lemma_alist_find_at(s.drop_first(), key, i - 1);
    }
}

/// If no entry holds `key`, lookup finds nothing.
pub proof fn lemma_alist_find_none<T>(s: Seq<(u64, T)>, key: u64)
    requires
        forall|j: int| 0 <= j < s.len() ==> (#[trigger] s[j]).0 != key,
    ensures
        alist_find(s, key) is None,
    decreases s.len(),
{
    if s.len() > 0 {
        lemma_alist_find_none(s.drop_first(), key);
    }
}

/// A found value sits at some index.
pub proof fn lemma_alist_find_index<T>(s: Seq<(u64, T)>, key: u64)
    requires
        alist_find(s, key) is Some,
    ensures
        exists|i: int|
            0 <= i < s.len() && (#[trigger] s[i]).0 == key && s[i].1 == alist_find(
                s,
                key,
            ).unwrap(),
    decreases s.len(),
{
    if s.len() > 0 && s[0].0 != key {
        lemma_alist_find_index(s.drop_first(), key);
        let i = choose|i: int|
            0 <= i < s.drop_first().len() && (#[trigger] s.drop_first()[i]).0 == key
                && s.drop_first()[i].1 == alist_find(s.drop_first(), key).unwrap();
        assert(s[i + 1] == s.drop_first()[i]);
    }
}

/// Replacing the entry at `i` by one with the same key rewrites only that
/// key's binding.
pub proof fn lemma_alist_find_update<T>(s: Seq<(u64, T)>, i: int, e: (u64, T), key: u64)
    requires
        0 <= i < s.len(),
        alist_keys_unique(s),
        e.0 == s[i].0,
    ensures
        alist_find(s.update(i, e), key) == if key == e.0 {
            Option::Some(e.1)
        } else {
            alist_find(s, key)
        },
    decreases i,
{
    let t = s.update(i, e);
    if i == 0 {
        if key == e.0 {
        } else {
            assert(t.drop_first() =~= s.drop_first());
        }
    } else {
        assert(t[0] == s[0]);
        assert(t.drop_first() =~= s.drop_first().update(i - 1, e));
        if s[0].0 == key {
            if key == e.0 {
                assert(s[0].0 == s[i].0);
                assert(false);
            }
        } else {
            lemma_alist_find_update(s.drop_first(), i - 1, e, key);
        }
    }
}

/// Replacing the first occurrence of a key by one with the same key
/// rewrites only that key's binding, duplicates or not.
pub proof fn lemma_alist_find_update_first<T>(s: Seq<(u64, T)>, i: int, e: (u64, T), key: u64)
    requires
        0 <= i < s.len(),
        e.0 == s[i].0,
        forall|j: int| 0 <= j < i ==> (#[trigger] s[j]).0 != e.0,
    ensures
        alist_find(s.update(i, e), key) == if key == e.0 {
            Option::Some(e.1)
        } else {
            alist_find(s, key)
        },
    decreases i,
{
    let t = s.update(i, e);
    if i == 0 {
        if key == e.0 {
        } else {
            assert(t.drop_first() =~= s.drop_first());
        }
    } else {
        assert(t[0] == s[0]);
        assert(t.drop_first() =~= s.drop_first().update(i - 1, e));
        assert(s[0].0 != e.0);
        if s[0].0 == key {
        } else {
            assert forall|j: int| 0 <= j < i - 1 implies (#[trigger] s.drop_first()[j]).0
                != e.0 by {
                assert(s.drop_first()[j] == s[j + 1]);
            }
            assert(s.drop_first()[i - 1] == s[i]);
            lemma_alist_find_update_first(s.drop_first(), i - 1, e, key);
        }
    }
}

/// Appending a fresh key rewrites only that key's binding.
pub proof fn lemma_alist_find_push<T>(s: Seq<(u64, T)>, e: (u64, T), key: u64)
    ensures
        alist_find(s.push(e), key) == if key == e.0 && alist_find(s, key) is None {
            Option::Some(e.1)
        } else {
            alist_find(s, key)
        },
    decreases s.len(),
{
    if s.len() == 0 {
        assert(s.push(e)[0] == e);
        assert(s.push(e).drop_first() =~= Seq::<(u64, T)>::empty());
        assert(alist_find(s, key) is None);
        if key == e.0 {
            assert(alist_find(s.push(e), key) == Option::Some(e.1));
        } else {
            assert(alist_find(s.push(e), key) == alist_find(s.push(e).drop_first(), key));
            assert(alist_find(s.push(e), key) is None);
        }
    } else {
        assert(s.push(e)[0] == s[0]);
        assert(s.push(e).drop_first() =~= s.drop_first().push(e));
        lemma_alist_find_push(s.drop_first(), e, key);
        if s[0].0 == key {
            assert(alist_find(s.push(e), key) == Option::Some(s[0].1));
            assert(alist_find(s, key) == Option::Some(s[0].1));
        } else {
            assert(alist_find(s.push(e), key) == alist_find(s.drop_first().push(e), key));
            assert(alist_find(s, key) == alist_find(s.drop_first(), key));
        }
    }
}

/// Removing the entry at `i` erases only that key's binding.
pub proof fn lemma_alist_find_remove<T>(s: Seq<(u64, T)>, i: int, key: u64)
    requires
        0 <= i < s.len(),
        alist_keys_unique(s),
    ensures
        alist_find(s.remove(i), key) == if key == s[i].0 {
            Option::None::<T>
        } else {
            alist_find(s, key)
        },
    decreases i,
{
    let t = s.remove(i);
    if i == 0 {
        assert(t =~= s.drop_first());
        if key == s[0].0 {
            assert(forall|j: int| 0 <= j < s.drop_first().len() ==> (#[trigger] s.drop_first()[j])
                == s[j + 1]);
            lemma_alist_find_none(s.drop_first(), key);
        }
    } else {
        assert(t[0] == s[0]);
        assert(t.drop_first() =~= s.drop_first().remove(i - 1));
        assert(s.drop_first()[i - 1] == s[i]);
        if s[0].0 == key {
            assert(key != s[i].0);
        } else {
            lemma_alist_find_remove(s.drop_first(), i - 1, key);
        }
    }
}

/// Uniqueness survives an update in place that keeps the key.
pub proof fn lemma_alist_unique_update<T>(s: Seq<(u64, T)>, i: int, e: (u64, T))
    requires
        0 <= i < s.len(),
        alist_keys_unique(s),
        e.0 == s[i].0,
    ensures
        alist_keys_unique(s.update(i, e)),
{
}

/// Uniqueness survives appending a key that is not yet bound.
pub proof fn lemma_alist_unique_push<T>(s: Seq<(u64, T)>, e: (u64, T))
    requires
        alist_keys_unique(s),
        alist_find(s, e.0) is None,
    ensures
        alist_keys_unique(s.push(e)),
{
    lemma_alist_find_none_inv(s, e.0);
}

/// An absent key occurs at no index.
pub proof fn lemma_alist_find_none_inv<T>(s: Seq<(u64, T)>, key: u64)
    requires
        alist_find(s, key) is None,
    ensures
        forall|j: int| 0 <= j < s.len() ==> (#[trigger] s[j]).0 != key,
    decreases s.len(),
{
    if s.len() > 0 {
        lemma_alist_find_none_inv(s.drop_first(), key);
        assert forall|j: int| 0 <= j < s.len() implies (#[trigger] s[j]).0 != key by {
            if j > 0 {
                assert(s[j] == s.drop_first()[j - 1]);
            }
        }
    }
}

/// Uniqueness survives removal.
pub proof fn lemma_alist_unique_remove<T>(s: Seq<(u64, T)>, i: int)
    requires
        0 <= i < s.len(),
        alist_keys_unique(s),
    ensures
        alist_keys_unique(s.remove(i)),
{
    let t = s.remove(i);
    assert forall|a: int, b: int| 0 <= a < b < t.len() implies (#[trigger] t[a]).0 != (
    #[trigger] t[b]).0 by {
        let a0 = if a < i {
            a
        } else {
            a + 1
        };
        let b0 = if b < i {
            b
        } else {
            b + 1
        };
        assert(t[a] == s[a0]);
        assert(t[b] == s[b0]);
    }
}

/// Lookup agrees with any witnessed occurrence when keys are unique.
pub proof fn lemma_alist_find_unique_at<T>(s: Seq<(u64, T)>, key: u64, i: int)
    requires
        0 <= i < s.len(),
        s[i].0 == key,
        alist_keys_unique(s),
    ensures
        alist_find(s, key) == Option::Some(s[i].1),
{
    assert forall|j: int| 0 <= j < i implies (#[trigger] s[j]).0 != key by {}
    lemma_alist_find_at(s, key, i);
}

/// Position of `key` in the vector, scanning from the front.
pub fn alist_position<T>(v: &Vec<(u64, T)>, key: u64) -> (r: Option<usize>)
    ensures
        match r {
            Option::Some(i) => i < v@.len() && v@[i as int].0 == key && alist_find(v@, key)
                == Option::Some(v@[i as int].1) && (forall|j: int|
                0 <= j < i ==> (#[trigger] v@[j]).0 != key),
            Option::None => alist_find(v@, key) is None,
        },
{
    let n = v.len();
    let mut i: usize = 0;
    while i < n
        invariant
            i <= n,
            n == v@.len(),
            forall|j: int| 0 <= j < i ==> (#[trigger] v@[j]).0 != key,
        decreases n - i,
    {
        if v[i].0 == key {
            proof {
                lemma_alist_find_at(v@, key, i as int);
            }
            return Option::Some(i);
        }
        i = i + 1;
    }
    proof {
        lemma_alist_find_none(v@, key);
    }
    Option::None
}

} // verus!
