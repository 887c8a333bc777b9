//! Small association tables keyed by byte strings, kept in insertion order,
//! with no key twice.
use vstd::prelude::*;

use crate::bytes::bytes_eq;

verus! {

/// The keys of a table, in order.
pub open spec fn keys_of<V>(s: Seq<(Vec<u8>, V)>) -> Seq<Seq<u8>> {
    Seq::new(s.len(), |i: int| s[i].0@)
}

/// No key occurs twice.
pub open spec fn distinct_keys<V>(s: Seq<(Vec<u8>, V)>) -> bool {
    forall|i: int, j: int|
        0 <= i < s.len() && 0 <= j < s.len() && i != j ==> #[trigger] s[i].0@ != #[trigger] s[j].0@
}

/// The map that a table stands for.
pub open spec fn table_map<V>(s: Seq<(Vec<u8>, V)>) -> Map<Seq<u8>, V> {
    Map::new(|k: Seq<u8>| keys_of(s).contains(k), |k: Seq<u8>| s[keys_of(s).index_of(k)].1)
}

pub proof fn lemma_table_map_at<V>(s: Seq<(Vec<u8>, V)>, i: int)
    requires
        distinct_keys(s),
        0 <= i < s.len(),
    ensures
        table_map(s).contains_key(s[i].0@),
        table_map(s)[s[i].0@] == s[i].1,
{
    let k = s[i].0@;
    assert(keys_of(s)[i] == k);
    assert(keys_of(s).contains(k));
    let j = keys_of(s).index_of(k);
    assert(keys_of(s)[j] == k);
    assert(s[j].0@ == k);
}

pub proof fn lemma_table_map_push<V>(s: Seq<(Vec<u8>, V)>, k: Vec<u8>, v: V)
    requires
        distinct_keys(s),
        !keys_of(s).contains(k@),
    ensures
        distinct_keys(s.push((k, v))),
        table_map(s.push((k, v))) == table_map(s).insert(k@, v),
{
    let t = s.push((k, v));
    assert forall|i: int, j: int|
        0 <= i < t.len() && 0 <= j < t.len() && i != j implies #[trigger] t[i].0@
        != #[trigger] t[j].0@ by {
        if i < s.len() && j < s.len() {
            assert(t[i] == s[i] && t[j] == s[j]);
        } else if i < s.len() {
            assert(keys_of(s)[i] == s[i].0@);
        } else {
            assert(keys_of(s)[j] == s[j].0@);
        }
    }
    assert forall|key: Seq<u8>| #[trigger]
        table_map(t).contains_key(key) == table_map(s).insert(k@, v).contains_key(key) by {
        if keys_of(s).contains(key) {
            let i = keys_of(s).index_of(key);
            assert(keys_of(t)[i] == key);
        }
        if keys_of(t).contains(key) && key != k@ {
            let i = keys_of(t).index_of(key);
            assert(i < s.len());
            assert(keys_of(s)[i] == key);
        }
        if key == k@ {
            assert(keys_of(t)[s.len() as int] == key);
        }
    }
    assert forall|key: Seq<u8>| table_map(t).contains_key(key) implies #[trigger] table_map(t)[key]
        == table_map(s).insert(k@, v)[key] by {
        let i = keys_of(t).index_of(key);
        assert(keys_of(t)[i] == key);
        lemma_table_map_at(t, i);
        if i < s.len() {
            assert(t[i] == s[i]);
            lemma_table_map_at(s, i);
        }
    }
    assert(table_map(t) =~= table_map(s).insert(k@, v));
}

pub proof fn lemma_table_map_update<V>(s: Seq<(Vec<u8>, V)>, i: int, k: Vec<u8>, v: V)
    requires
        distinct_keys(s),
        0 <= i < s.len(),
        k@ == s[i].0@,
    ensures
        distinct_keys(s.update(i, (k, v))),
        table_map(s.update(i, (k, v))) == table_map(s).insert(k@, v),
{
    let t = s.update(i, (k, v));
    assert(keys_of(t) =~= keys_of(s));
    assert forall|a: int, b: int|
        0 <= a < t.len() && 0 <= b < t.len() && a != b implies #[trigger] t[a].0@
        != #[trigger] t[b].0@ by {
        assert(t[a].0@ == s[a].0@ && t[b].0@ == s[b].0@);
    }
    assert forall|key: Seq<u8>| table_map(t).contains_key(key) implies #[trigger] table_map(t)[key]
        == table_map(s).insert(k@, v)[key] by {
        let j = keys_of(t).index_of(key);
        assert(keys_of(t)[j] == key);
        lemma_table_map_at(t, j);
        if j != i {
            assert(t[j] == s[j]);
            lemma_table_map_at(s, j);
        }
    }
    lemma_table_map_at(s, i);
    assert(table_map(t) =~= table_map(s).insert(k@, v));
}

/// The index of the entry with key `key`, if any.
pub fn find_key<V>(t: &Vec<(Vec<u8>, V)>, key: &[u8]) -> (r: Option<usize>)
    ensures
        match r {
            Some(i) => i < t@.len() && t@[i as int].0@ == key@,
            None => !keys_of(t@).contains(key@),
        },
{
    let mut i: usize = 0;
    while i < t.len()
        invariant
            i <= t@.len(),
            forall|j: int| 0 <= j < i ==> t@[j].0@ != key@,
        decreases t.len() - i,
    {
        if bytes_eq(t[i].0.as_slice(), key) {
            return Some(i);
        }
        i = i + 1;
    }
    assert forall|j: int| 0 <= j < t@.len() implies keys_of(t@)[j] != key@ by {
        assert(t@[j].0@ != key@);
    }
    None
}

} // verus!
