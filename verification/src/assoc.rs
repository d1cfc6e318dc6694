//! String-keyed association lists and their lookup model.
//!
//! Several components keep small maps as vectors of (name, value) pairs
//! with pairwise distinct names; this module gives them one model.

use vstd::prelude::*;

verus! {

/// Model of a string-keyed pair list: keys as character sequences.
pub open spec fn amodel<T>(s: Seq<(String, T)>) -> Seq<(Seq<char>, T)> {
    s.map(|i: int, e: (String, T)| (e.0@, e.1))
}

/// The keys are pairwise distinct.
pub open spec fn akeys_distinct<T>(s: Seq<(Seq<char>, T)>) -> bool {
    forall|i: int, j: int| 0 <= i < j < s.len() ==> s[i].0 != s[j].0
}

/// Whether key `k` is bound.
pub open spec fn ahas<T>(s: Seq<(Seq<char>, T)>, k: Seq<char>) -> bool {
    exists|i: int| 0 <= i < s.len() && s[i].0 == k
}

/// The value bound to key `k`, when one is.
pub open spec fn aget<T>(s: Seq<(Seq<char>, T)>, k: Seq<char>) -> Option<T> {
    if ahas(s, k) {
        Some(s[choose|i: int| 0 <= i < s.len() && s[i].0 == k].1)
    } else {
        None
    }
}

/// With distinct keys, the entry that holds `k` gives the binding.
pub proof fn lemma_aget_at<T>(s: Seq<(Seq<char>, T)>, i: int)
    requires
        akeys_distinct(s),
        0 <= i < s.len(),
    ensures
        aget(s, s[i].0) == Some(s[i].1),
{
    let k = s[i].0;
    assert(0 <= i < s.len() && s[i].0 == k);
    let j = choose|j: int| 0 <= j < s.len() && s[j].0 == k;
    if i < j {
        assert(s[i].0 != s[j].0);
    } else if j < i {
        assert(s[j].0 != s[i].0);
    }
}

/// Appending a fresh key changes only that key's binding.
pub proof fn lemma_aget_push<T>(s: Seq<(Seq<char>, T)>, k: Seq<char>, v: T, p: Seq<char>)
    requires
        akeys_distinct(s),
        !ahas(s, k),
    ensures
        akeys_distinct(s.push((k, v))),
        aget(s.push((k, v)), p) == if p == k {
            Some(v)
        } else {
            aget(s, p)
        },
{
    let t = s.push((k, v));
    assert(forall|i: int| 0 <= i < s.len() ==> t[i] == s[i]);
    assert(t[s.len() as int] == (k, v));
    assert(forall|i: int| 0 <= i < s.len() ==> s[i].0 != k);
    if p == k {
        lemma_aget_at(t, s.len() as int);
    } else {
        if ahas(s, p) {
            let i = choose|i: int| 0 <= i < s.len() && s[i].0 == p;
            lemma_aget_at(s, i);
            lemma_aget_at(t, i);
        } else {
            assert(forall|i: int| 0 <= i < t.len() ==> t[i].0 != p);
        }
    }
}

/// Replacing the value at an existing key changes only that key's binding.
pub proof fn lemma_aget_update<T>(s: Seq<(Seq<char>, T)>, i: int, v: T, p: Seq<char>)
    requires
        akeys_distinct(s),
        0 <= i < s.len(),
    ensures
        akeys_distinct(s.update(i, (s[i].0, v))),
        aget(s.update(i, (s[i].0, v)), p) == if p == s[i].0 {
            Some(v)
        } else {
            aget(s, p)
        },
{
    let t = s.update(i, (s[i].0, v));
    assert(t[i] == (s[i].0, v));
    assert(forall|j: int| 0 <= j < s.len() && j != i ==> t[j] == s[j]);
    assert(akeys_distinct(t));
    if p == s[i].0 {
        lemma_aget_at(t, i);
    } else {
        if ahas(s, p) {
            let j = choose|j: int| 0 <= j < s.len() && s[j].0 == p;
            lemma_aget_at(s, j);
            lemma_aget_at(t, j);
        } else {
            assert(forall|j: int| 0 <= j < t.len() ==> t[j].0 != p);
        }
    }
}

/// Removing the entry at `i` unbinds its key and keeps every other binding.
pub proof fn lemma_aget_remove<T>(s: Seq<(Seq<char>, T)>, i: int, p: Seq<char>)
    requires
        akeys_distinct(s),
        0 <= i < s.len(),
    ensures
        akeys_distinct(s.remove(i)),
        aget(s.remove(i), p) == if p == s[i].0 {
            None::<T>
        } else {
            aget(s, p)
        },
{
    let t = s.remove(i);
    assert(forall|j: int| 0 <= j < i ==> t[j] == s[j]);
    assert(forall|j: int| i <= j < t.len() ==> t[j] == s[j + 1]);
    assert(akeys_distinct(t));
    if p == s[i].0 {
        assert(forall|j: int| 0 <= j < t.len() ==> t[j].0 != p);
    } else {
        if ahas(s, p) {
            let j = choose|j: int| 0 <= j < s.len() && s[j].0 == p;
            lemma_aget_at(s, j);
            if j < i {
                lemma_aget_at(t, j);
            } else {
                assert(t[j - 1] == s[j]);
                lemma_aget_at(t, j - 1);
            }
        } else {
            assert(forall|j: int| 0 <= j < t.len() ==> t[j].0 != p);
        }
    }
}

/// Position of `key` among the pairs, if it is bound.
pub fn afind<T>(entries: &Vec<(String, T)>, key: &str) -> (r: Option<usize>)
    ensures
        match r {
            Some(i) => i < entries@.len() && entries@[i as int].0@ == key@,
            None => forall|i: int| 0 <= i < entries@.len() ==> entries@[i].0@ != key@,
        },
{
    let mut i: usize = 0;
    while i < entries.len()
        invariant
            i <= entries@.len(),
            forall|j: int| 0 <= j < i ==> entries@[j].0@ != key@,
        decreases entries@.len() - i,
    {
        if crate::value::str_eq(entries[i].0.as_str(), key) {
            return Some(i);
        }
        i = i + 1;
    }
    None
}

} // verus!
