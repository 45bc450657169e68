//! Facts about filtering a sequence that the proofs about `retain` rest on.

use vstd::prelude::*;

verus! {

/// Two tests that agree on every element of `s` filter it alike.
pub proof fn lemma_filter_same<A>(s: Seq<A>, p: spec_fn(A) -> bool, q: spec_fn(A) -> bool)
    requires
        forall|i: int| 0 <= i < s.len() ==> p(#[trigger] s[i]) == q(s[i]),
    ensures
        s.filter(p) == s.filter(q),
    decreases s.len(),
{
    reveal(Seq::filter);
    if s.len() > 0 {
        let rest = s.drop_last();
        assert forall|i: int| 0 <= i < rest.len() implies p(#[trigger] rest[i]) == q(rest[i]) by {}
        lemma_filter_same(rest, p, q);
    }
}

/// A test that every element of `s` passes leaves `s` as it is.
pub proof fn lemma_filter_all<A>(s: Seq<A>, p: spec_fn(A) -> bool)
    requires
        forall|i: int| 0 <= i < s.len() ==> p(#[trigger] s[i]),
    ensures
        s.filter(p) == s,
    decreases s.len(),
{
    reveal(Seq::filter);
    if s.len() > 0 {
        let rest = s.drop_last();
        assert forall|i: int| 0 <= i < rest.len() implies p(#[trigger] rest[i]) by {}
        lemma_filter_all(rest, p);
    }
}

/// Filtering by `p` and then by `q` is filtering by both at once.
pub proof fn lemma_filter_twice<A>(s: Seq<A>, p: spec_fn(A) -> bool, q: spec_fn(A) -> bool)
    ensures
        s.filter(p).filter(q) == s.filter(|a: A| p(a) && q(a)),
    decreases s.len(),
{
    reveal(Seq::filter);
    if s.len() > 0 {
        let rest = s.drop_last();
        lemma_filter_twice(rest, p, q);
        if p(s.last()) {
            let kept = rest.filter(p);
            assert(kept.push(s.last()).drop_last() =~= kept);
        }
    }
}

/// The entries whose key is not `key`.
pub open spec fn without_key<K, V>(entries: Seq<(K, V)>, key: K) -> Seq<(K, V)> {
    entries.filter(|e: (K, V)| e.0 != key)
}

/// The entries whose key is not in `dropped`.
pub open spec fn without_keys<K, V>(entries: Seq<(K, V)>, dropped: Set<K>) -> Seq<(K, V)> {
    entries.filter(|e: (K, V)| !dropped.contains(e.0))
}

/// Where no two entries share a key, taking out the entry at `p` takes out
/// exactly the entries with that key.
pub proof fn lemma_remove_is_filter<K, V>(entries: Seq<(K, V)>, p: int)
    requires
        0 <= p < entries.len(),
        forall|i: int, j: int|
            0 <= i < entries.len() && 0 <= j < entries.len() && i != j ==> entries[i].0
                != entries[j].0,
    ensures
        entries.remove(p) == without_key(entries, entries[p].0),
    decreases entries.len(),
{
    reveal(Seq::filter);
    let key = entries[p].0;
    let test = |e: (K, V)| e.0 != key;
    let rest = entries.drop_last();
    if p == entries.len() - 1 {
        assert forall|i: int| 0 <= i < rest.len() implies test(#[trigger] rest[i]) by {}
        lemma_filter_all(rest, test);
    } else {
        assert forall|i: int, j: int|
            0 <= i < rest.len() && 0 <= j < rest.len() && i != j implies rest[i].0 != rest[j].0 by {}
        lemma_remove_is_filter(rest, p);
    }
}

/// Dropping the keys in `dropped` and then `key` is dropping them all.
pub proof fn lemma_drop_one_more<K, V>(entries: Seq<(K, V)>, dropped: Set<K>, key: K)
    ensures
        without_key(without_keys(entries, dropped), key) == without_keys(
            entries,
            dropped.insert(key),
        ),
{
    let p = |e: (K, V)| !dropped.contains(e.0);
    let q = |e: (K, V)| e.0 != key;
    lemma_filter_twice(entries, p, q);
    lemma_filter_same(
        entries,
        |e: (K, V)| p(e) && q(e),
        |e: (K, V)| !dropped.insert(key).contains(e.0),
    );
}

} // verus!
