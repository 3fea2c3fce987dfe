//! Association lists keyed by strings.
//!
//! The index stores each of its mappings as a vector of `(String, value)`
//! pairs with pairwise-distinct keys, compared by character content. The
//! spec-level reading of such a list is a `Map` from the key's character
//! sequence to the value.

use vstd::prelude::*;

verus! {

/// Some entry of `s` has key `k`.
pub open spec fn al_has<V>(s: Seq<(String, V)>, k: Seq<char>) -> bool {
    exists|i: int| 0 <= i < s.len() && s[i].0@ == k
}

/// The index of the entry with key `k` (unique when keys are distinct).
pub open spec fn al_idx<V>(s: Seq<(String, V)>, k: Seq<char>) -> int {
    choose|i: int| 0 <= i < s.len() && s[i].0@ == k
}

/// The value stored under key `k`.
pub open spec fn al_get<V>(s: Seq<(String, V)>, k: Seq<char>) -> V {
    s[al_idx(s, k)].1
}

/// Keys are pairwise distinct by character content.
pub open spec fn al_uniq<V>(s: Seq<(String, V)>) -> bool {
    forall|i: int, j: int| 0 <= i < j < s.len() ==> s[i].0@ != s[j].0@
}

/// The map an association list denotes.
pub open spec fn al_map<V>(s: Seq<(String, V)>) -> Map<Seq<char>, V> {
    Map::new(|k: Seq<char>| al_has(s, k), |k: Seq<char>| al_get(s, k))
}

/// With distinct keys, any entry whose key matches is the entry looked up.
pub proof fn lemma_al_at<V>(s: Seq<(String, V)>, i: int)
    requires
        al_uniq(s),
        0 <= i < s.len(),
    ensures
        al_has(s, s[i].0@),
        al_idx(s, s[i].0@) == i,
        al_get(s, s[i].0@) == s[i].1,
{
    let k = s[i].0@;
    assert(al_has(s, k));
    let j = al_idx(s, k);
    assert(0 <= j < s.len() && s[j].0@ == k);
    if i < j {
        assert(s[i].0@ != s[j].0@);
    } else if j < i {
        assert(s[j].0@ != s[i].0@);
    }
}

/// Appending a fresh key inserts it into the denoted map.
pub proof fn lemma_al_push<V>(s: Seq<(String, V)>, key: String, val: V)
    requires
        al_uniq(s),
        !al_has(s, key@),
    ensures
        al_uniq(s.push((key, val))),
        al_map(s.push((key, val))) == al_map(s).insert(key@, val),
        forall|k: Seq<char>|
            #[trigger] al_has(s.push((key, val)), k) == (al_has(s, k) || k == key@),
        al_get(s.push((key, val)), key@) == val,
        forall|k: Seq<char>|
            #[trigger] al_has(s, k) && k != key@ ==> al_get(s.push((key, val)), k) == al_get(s, k),
{
    let t = s.push((key, val));
    assert forall|i: int, j: int| 0 <= i < j < t.len() implies t[i].0@ != t[j].0@ by {
        if j < s.len() {
            assert(s[i].0@ != s[j].0@);
        } else {
            assert(t[j] == (key, val));
            if t[i].0@ == key@ {
                assert(al_has(s, key@));
            }
        }
    }
    assert forall|k: Seq<char>| al_has(t, k) implies (k == key@ || al_has(s, k)) by {
        let i = choose|i: int| 0 <= i < t.len() && t[i].0@ == k;
        if i < s.len() {
            assert(s[i].0@ == k);
        }
    }
    assert forall|k: Seq<char>| al_has(s, k) implies al_has(t, k) by {
        let i = choose|i: int| 0 <= i < s.len() && s[i].0@ == k;
        assert(t[i].0@ == k);
    }
    assert(t[s.len() as int].0@ == key@);
    assert(al_has(t, key@));
    assert forall|k: Seq<char>| #[trigger] al_has(t, k) implies al_get(t, k) == al_map(s).insert(
        key@,
        val,
    )[k] by {
        let i = al_idx(t, k);
        assert(0 <= i < t.len() && t[i].0@ == k);
        if k == key@ {
            lemma_al_at(t, s.len() as int);
            assert(al_get(t, k) == val);
        } else {
            assert(i < s.len());
            lemma_al_at(s, i);
            lemma_al_at(t, i);
        }
    }
    assert(al_map(t) =~= al_map(s).insert(key@, val));
}

/// Replacing the value at position `i` updates the denoted map at that key.
pub proof fn lemma_al_set<V>(s: Seq<(String, V)>, i: int, key: String, val: V)
    requires
        al_uniq(s),
        0 <= i < s.len(),
        key@ == s[i].0@,
    ensures
        al_uniq(s.update(i, (key, val))),
        al_map(s.update(i, (key, val))) == al_map(s).insert(key@, val),
        forall|k: Seq<char>| #[trigger] al_has(s.update(i, (key, val)), k) == al_has(s, k),
        al_get(s.update(i, (key, val)), key@) == val,
        forall|k: Seq<char>|
            #[trigger] al_has(s, k) && k != key@ ==> al_get(s.update(i, (key, val)), k) == al_get(
                s,
                k,
            ),
{
    let t = s.update(i, (key, val));
    assert forall|a: int, b: int| 0 <= a < b < t.len() implies t[a].0@ != t[b].0@ by {
        assert(s[a].0@ != s[b].0@);
        assert(t[a].0@ == s[a].0@ && t[b].0@ == s[b].0@);
    }
    assert forall|k: Seq<char>| al_has(t, k) == al_has(s, k) by {
        if al_has(t, k) {
            let a = choose|a: int| 0 <= a < t.len() && t[a].0@ == k;
            assert(s[a].0@ == k);
        }
        if al_has(s, k) {
            let a = choose|a: int| 0 <= a < s.len() && s[a].0@ == k;
            assert(t[a].0@ == k);
        }
    }
    assert forall|k: Seq<char>| #[trigger] al_has(t, k) implies al_get(t, k) == al_map(s).insert(
        key@,
        val,
    )[k] by {
        let a = al_idx(t, k);
        assert(0 <= a < t.len() && t[a].0@ == k);
        if k == key@ {
            lemma_al_at(t, i);
        } else {
            assert(a != i);
            lemma_al_at(t, a);
            lemma_al_at(s, a);
        }
    }
    assert(t[i].0@ == key@);
    assert(al_has(t, key@));
    assert(al_get(t, key@) == al_map(s).insert(key@, val)[key@]);
    assert(al_map(t) =~= al_map(s).insert(key@, val));
}

/// An empty association list denotes the empty map.
pub proof fn lemma_al_empty<V>(s: Seq<(String, V)>)
    requires
        s.len() == 0,
    ensures
        al_map(s) == Map::<Seq<char>, V>::empty(),
{
    assert(al_map(s) =~= Map::<Seq<char>, V>::empty());
}

/// With distinct keys, the denoted map has exactly one entry per element.
pub proof fn lemma_al_dom_len<V>(s: Seq<(String, V)>)
    requires
        al_uniq(s),
    ensures
        al_map(s).dom().finite(),
        al_map(s).dom().len() == s.len(),
    decreases s.len(),
{
    if s.len() == 0 {
        lemma_al_empty(s);
        assert(al_map(s).dom() =~= Set::<Seq<char>>::empty());
    } else {
        let init = s.drop_last();
        let last = s.last();
        assert(s == init.push(last));
        assert(al_uniq(init)) by {
            assert forall|i: int, j: int| 0 <= i < j < init.len() implies init[i].0@ != init[j].0@
                by {
                assert(s[i].0@ != s[j].0@);
            }
        }
        assert(!al_has(init, last.0@)) by {
            if al_has(init, last.0@) {
                let i = choose|i: int| 0 <= i < init.len() && init[i].0@ == last.0@;
                assert(s[i].0@ == s[s.len() - 1].0@);
            }
        }
        lemma_al_dom_len(init);
        lemma_al_push(init, last.0, last.1);
        assert(al_map(s) == al_map(init).insert(last.0@, last.1));
        assert(al_map(s).dom() =~= al_map(init).dom().insert(last.0@));
        assert(!al_map(init).dom().contains(last.0@));
    }
}

/// Finds the position of `key` in the list, comparing by character content.
pub fn al_find<V>(v: &Vec<(String, V)>, key: &String) -> (r: Option<usize>)
    ensures
        match r {
            Some(i) => i < v@.len() && v@[i as int].0@ == key@,
            None => !al_has(v@, key@),
        },
{
    let mut i: usize = 0;
    while i < v.len()
        invariant
            i <= v@.len(),
            forall|j: int| 0 <= j < i ==> v@[j].0@ != key@,
        decreases v@.len() - i,
    {
        if v[i].0 == *key {
            return Some(i);
        }
        i = i + 1;
    }
    None
}

} // verus!
