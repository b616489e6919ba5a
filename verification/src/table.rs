//! Keyed tables: vectors of `(key, value)` entries that play the part of
//! maps.  Lookups find the first entry with a key; inserting an existing
//! key replaces that entry's value in place, otherwise appends.

use vstd::prelude::*;

use crate::models::{key_index, lookup, table_view};

verus! {

/// `key_index` gives the first entry with the key, or the length.
pub proof fn lemma_key_index<V>(s: Seq<(Seq<char>, V)>, k: Seq<char>)
    ensures
        0 <= key_index(s, k) <= s.len(),
        forall|j: int| 0 <= j < key_index(s, k) ==> (#[trigger] s[j]).0 != k,
        key_index(s, k) < s.len() ==> s[key_index(s, k)].0 == k,
    decreases s.len(),
{
    if s.len() > 0 {
        lemma_key_index(s.drop_last(), k);
        assert forall|j: int| 0 <= j < key_index(s, k) implies (#[trigger] s[j]).0 != k by {
            if j < s.len() - 1 {
                assert(s[j] == s.drop_last()[j]);
            }
        }
        if key_index(s.drop_last(), k) < s.len() - 1 {
            assert(s[key_index(s, k)] == s.drop_last()[key_index(s, k)]);
        }
    }
}

/// Characterises `key_index` by its defining property.
pub proof fn lemma_key_index_is<V>(s: Seq<(Seq<char>, V)>, k: Seq<char>, i: int)
    requires
        0 <= i <= s.len(),
        forall|j: int| 0 <= j < i ==> (#[trigger] s[j]).0 != k,
        i < s.len() ==> s[i].0 == k,
    ensures
        key_index(s, k) == i,
{
    lemma_key_index(s, k);
    let r = key_index(s, k);
    if r < i {
        assert(s[r].0 == k);
    } else if r > i {
        assert(s[i].0 != k);
    }
}

/// Keys are compared by their characters only.
pub proof fn lemma_key_index_update<V>(s: Seq<(Seq<char>, V)>, k: Seq<char>, i: int, v: V)
    requires
        0 <= i < s.len(),
    ensures
        key_index(s.update(i, (s[i].0, v)), k) == key_index(s, k),
{
    lemma_key_index(s, k);
    let t = s.update(i, (s[i].0, v));
    assert forall|j: int| 0 <= j < key_index(s, k) implies (#[trigger] t[j]).0 != k by {
        assert(t[j].0 == s[j].0);
    }
    if key_index(s, k) < s.len() {
        assert(t[key_index(s, k)].0 == s[key_index(s, k)].0);
    }
    lemma_key_index_is(t, k, key_index(s, k));
}

/// Index of the first entry whose key is `k`.
pub fn find_key<V: View>(s: &Vec<(String, V)>, k: &String) -> (r: Option<usize>)
    ensures
        match r {
            Some(i) => i < s@.len() && i == key_index(table_view(s@), k@),
            None => key_index(table_view(s@), k@) == s@.len(),
        },
{
    let ghost tv = table_view(s@);
    let mut i: usize = 0;
    while i < s.len()
        invariant
            tv == table_view(s@),
            i <= s@.len(),
            forall|j: int| 0 <= j < i ==> (#[trigger] tv[j]).0 != k@,
        decreases s@.len() - i,
    {
        if s[i].0 == *k {
            proof {
                lemma_key_index_is(tv, k@, i as int);
            }
            return Some(i);
        }
        i += 1;
    }
    proof {
        lemma_key_index_is(tv, k@, i as int);
    }
    None
}

/// The value of the first entry whose key is `k`.
pub fn get_key<'a, V: View>(s: &'a Vec<(String, V)>, k: &String) -> (r: Option<&'a V>)
    ensures
        match r {
            Some(v) => lookup(table_view(s@), k@) == Some(v@),
            None => lookup(table_view(s@), k@) is None,
        },
{
    match find_key(s, k) {
        Some(i) => Some(&s[i].1),
        None => None,
    }
}

/// What inserting `(k, v)` makes of a table's view: the first entry with
/// key `k` gets value `v`, or the entry is appended.
pub open spec fn insert_view<V>(s: Seq<(Seq<char>, V)>, k: Seq<char>, v: V) -> Seq<(Seq<char>, V)> {
    let i = key_index(s, k);
    if i < s.len() {
        s.update(i, (k, v))
    } else {
        s.push((k, v))
    }
}

/// What removing key `k` makes of a table's view.
pub open spec fn remove_view<V>(s: Seq<(Seq<char>, V)>, k: Seq<char>) -> Seq<(Seq<char>, V)> {
    let i = key_index(s, k);
    if i < s.len() {
        s.remove(i)
    } else {
        s
    }
}

/// Inserts `(k, v)`, replacing the value of the first entry with key `k`.
/// A table whose keys are distinct keeps them distinct.
pub fn insert_key<V: View>(s: &mut Vec<(String, V)>, k: String, v: V)
    ensures
        table_view(final(s)@) == insert_view(table_view(old(s)@), k@, v@),
        keys_distinct(table_view(old(s)@)) ==> keys_distinct(table_view(final(s)@)),
{
    proof {
        if keys_distinct(table_view(s@)) {
            lemma_insert_keeps_distinct(table_view(s@), k@, v@);
        }
    }
    let ghost kv = k@;
    let ghost vv = v@;
    match find_key(s, &k) {
        Some(i) => {
            s.set(i, (k, v));
            proof {
                assert(table_view(s@) =~= table_view(old(s)@).update(i as int, (kv, vv)));
            }
        },
        None => {
            s.push((k, v));
            proof {
                assert(table_view(s@) =~= table_view(old(s)@).push((kv, vv)));
            }
        },
    }
}

/// Removes the first entry with key `k`; gives its value.  A table whose
/// keys are distinct keeps them distinct and no longer has the key.
pub fn remove_key<V: View>(s: &mut Vec<(String, V)>, k: &String) -> (r: Option<V>)
    ensures
        table_view(final(s)@) == remove_view(table_view(old(s)@), k@),
        keys_distinct(table_view(old(s)@)) ==> keys_distinct(table_view(final(s)@)) && lookup(
            table_view(final(s)@),
            k@,
        ) is None,
        match r {
            Some(v) => lookup(table_view(old(s)@), k@) == Some(v@),
            None => lookup(table_view(old(s)@), k@) is None,
        },
{
    proof {
        if keys_distinct(table_view(s@)) {
            lemma_remove_keeps_distinct(table_view(s@), k@);
            law_remove_then_lookup(table_view(s@), k@, k@);
        }
    }
    match find_key(s, k) {
        Some(i) => {
            let (_, v) = s.remove(i);
            proof {
                assert(table_view(s@) =~= table_view(old(s)@).remove(i as int));
            }
            Some(v)
        },
        None => None,
    }
}


/// No two entries of a table share a key: the table is a map.
pub open spec fn keys_distinct<V>(s: Seq<(Seq<char>, V)>) -> bool {
    forall|i: int, j: int| 0 <= i < j < s.len() ==> (#[trigger] s[i]).0 != (#[trigger] s[j]).0
}

/// Inserting keeps the keys of a table distinct.
pub proof fn lemma_insert_keeps_distinct<V>(s: Seq<(Seq<char>, V)>, k: Seq<char>, v: V)
    requires
        keys_distinct(s),
    ensures
        keys_distinct(insert_view(s, k, v)),
{
    lemma_key_index(s, k);
    let t = insert_view(s, k, v);
    let x = key_index(s, k);
    assert forall|i: int, j: int| 0 <= i < j < t.len() implies (#[trigger] t[i]).0 != (#[trigger] t[j]).0 by {
        if x >= s.len() && j == s.len() {
            assert(t[i] == s[i]);
        } else {
            assert(t[i].0 == s[i].0);
            assert(t[j].0 == s[j].0);
        }
    }
}

/// Removing keeps the keys of a table distinct.
pub proof fn lemma_remove_keeps_distinct<V>(s: Seq<(Seq<char>, V)>, k: Seq<char>)
    requires
        keys_distinct(s),
    ensures
        keys_distinct(remove_view(s, k)),
{
    lemma_key_index(s, k);
    let t = remove_view(s, k);
    let x = key_index(s, k);
    if x < s.len() {
        assert forall|i: int, j: int| 0 <= i < j < t.len() implies (#[trigger] t[i]).0 != (#[trigger] t[j]).0 by {
            let i2 = if i < x { i } else { i + 1 };
            let j2 = if j < x { j } else { j + 1 };
            assert(t[i] == s[i2]);
            assert(t[j] == s[j2]);
        }
    }
}

/// Two tables with the same keys in the same places are alike in having
/// distinct keys.
pub proof fn lemma_same_keys_distinct<V, W>(s1: Seq<(Seq<char>, V)>, s2: Seq<(Seq<char>, W)>)
    requires
        s1.len() == s2.len(),
        forall|i: int| 0 <= i < s1.len() ==> #[trigger] s1[i].0 == s2[i].0,
    ensures
        keys_distinct(s1) == keys_distinct(s2),
{
    if keys_distinct(s1) {
        assert forall|i: int, j: int| 0 <= i < j < s2.len() implies (#[trigger] s2[i]).0 != (#[trigger] s2[j]).0 by {
            assert(s1[i].0 != s1[j].0);
        }
    }
    if keys_distinct(s2) {
        assert forall|i: int, j: int| 0 <= i < j < s1.len() implies (#[trigger] s1[i]).0 != (#[trigger] s1[j]).0 by {
            assert(s2[i].0 != s2[j].0);
        }
    }
}

/// Each entry after an insertion is the inserted one or the one that was
/// in its place.
pub proof fn lemma_insert_entries<V>(s: Seq<(Seq<char>, V)>, k: Seq<char>, v: V)
    ensures
        insert_view(s, k, v).len() <= s.len() + 1,
        forall|j: int|
            0 <= j < insert_view(s, k, v).len() ==> #[trigger] insert_view(s, k, v)[j] == (k, v) || (j
                < s.len() && insert_view(s, k, v)[j] == s[j]),
{
    lemma_key_index(s, k);
}

/// Each entry after a removal is one that was there before.
pub proof fn lemma_remove_entries<V>(s: Seq<(Seq<char>, V)>, k: Seq<char>)
    ensures
        remove_view(s, k).len() <= s.len(),
        forall|j: int|
            0 <= j < remove_view(s, k).len() ==> #[trigger] remove_view(s, k)[j] == s[j] || (j + 1 < s.len()
                && remove_view(s, k)[j] == s[j + 1]),
{
    lemma_key_index(s, k);
}

/// Dropping any one entry keeps the keys of a table distinct.
pub proof fn lemma_drop_entry_keeps_distinct<V>(s: Seq<(Seq<char>, V)>, x: int)
    requires
        keys_distinct(s),
        0 <= x < s.len(),
    ensures
        keys_distinct(s.remove(x)),
{
    let t = s.remove(x);
    assert forall|i: int, j: int| 0 <= i < j < t.len() implies (#[trigger] t[i]).0 != (#[trigger] t[j]).0 by {
        let i2 = if i < x { i } else { i + 1 };
        let j2 = if j < x { j } else { j + 1 };
        assert(t[i] == s[i2]);
        assert(t[j] == s[j2]);
    }
}

/// In a table whose keys are distinct, removing a key leaves no entry
/// with it, and every other key gives what it gave before: the table
/// behaves as a map.
pub proof fn law_remove_then_lookup<V>(s: Seq<(Seq<char>, V)>, k: Seq<char>, k2: Seq<char>)
    requires
        keys_distinct(s),
    ensures
        lookup(remove_view(s, k), k) is None,
        k2 != k ==> lookup(remove_view(s, k), k2) == lookup(s, k2),
{
    lemma_key_index(s, k);
    lemma_key_index(s, k2);
    let t = remove_view(s, k);
    let x = key_index(s, k);
    if x < s.len() {
        assert forall|m: int| 0 <= m < t.len() implies (#[trigger] t[m]).0 != k by {
            let m2 = if m < x { m } else { m + 1 };
            assert(t[m] == s[m2]);
            if m2 != x {
                assert(s[m2].0 != s[x].0);
            }
        }
        lemma_key_index_is(t, k, t.len() as int);
        if k2 != k {
            let j = key_index(s, k2);
            if j < s.len() {
                assert(j != x);
                let j2 = if j < x { j } else { j - 1 };
                assert forall|m: int| 0 <= m < j2 implies (#[trigger] t[m]).0 != k2 by {
                    let m2 = if m < x { m } else { m + 1 };
                    assert(t[m] == s[m2]);
                }
                assert(t[j2] == s[j]);
                lemma_key_index_is(t, k2, j2);
            } else {
                assert forall|m: int| 0 <= m < t.len() implies (#[trigger] t[m]).0 != k2 by {
                    let m2 = if m < x { m } else { m + 1 };
                    assert(t[m] == s[m2]);
                }
                lemma_key_index_is(t, k2, t.len() as int);
            }
        }
    } else {
        assert forall|m: int| 0 <= m < s.len() implies (#[trigger] s[m]).0 != k by {}
    }
}

/// After inserting `(k, v)`, looking up `k` gives `v`, and every other
/// key gives what it gave before.
pub proof fn lemma_lookup_insert<V>(s: Seq<(Seq<char>, V)>, k: Seq<char>, v: V, k2: Seq<char>)
    ensures
        lookup(insert_view(s, k, v), k) == Some(v),
        k2 != k ==> lookup(insert_view(s, k, v), k2) == lookup(s, k2),
{
    lemma_key_index(s, k);
    lemma_key_index(s, k2);
    let t = insert_view(s, k, v);
    let i = key_index(s, k);
    if i < s.len() {
        lemma_key_index_is(t, k, i);
        if k2 != k {
            let j = key_index(s, k2);
            assert forall|m: int| 0 <= m < j implies (#[trigger] t[m]).0 != k2 by {
                if m != i {
                    assert(t[m] == s[m]);
                }
            }
            if j < s.len() {
                assert(s[j].0 == k2 && s[i].0 == k);
                assert(j != i);
                assert(t[j] == s[j]);
            }
            lemma_key_index_is(t, k2, j);
        }
    } else {
        assert forall|m: int| 0 <= m < s.len() implies (#[trigger] t[m]).0 != k by {
            assert(t[m] == s[m]);
        }
        lemma_key_index_is(t, k, s.len() as int);
        if k2 != k {
            let j = key_index(s, k2);
            assert forall|m: int| 0 <= m < j implies (#[trigger] t[m]).0 != k2 by {
                assert(t[m] == s[m]);
            }
            if j < s.len() {
                assert(t[j] == s[j]);
                lemma_key_index_is(t, k2, j);
            } else {
                assert forall|m: int| 0 <= m < t.len() implies (#[trigger] t[m]).0 != k2 by {
                    if m < s.len() {
                        assert(t[m] == s[m]);
                    }
                }
                lemma_key_index_is(t, k2, t.len() as int);
            }
        }
    }
}

/// Looking up in a table with one more entry at the end: the earlier
/// entries come first.
pub proof fn lemma_lookup_push<V>(s: Seq<(Seq<char>, V)>, e: (Seq<char>, V), k: Seq<char>)
    ensures
        lookup(s.push(e), k) == (if lookup(s, k) is Some {
            lookup(s, k)
        } else if e.0 == k {
            Some(e.1)
        } else {
            None::<V>
        }),
{
    assert(s.push(e).drop_last() =~= s);
    lemma_key_index(s, k);
}

} // verus!
