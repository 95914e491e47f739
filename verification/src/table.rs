//! Tables keyed by text, as the model sees the library's keyed vectors
//! (message headers, pending requests, request handlers).
use vstd::prelude::*;

verus! {

/// A table keyed by text, as the model sees it.
pub type Table<T> = Seq<(Seq<char>, T)>;

/// The first index at or after `i` whose key is `k`, or `s.len()`.
pub open spec fn entry_index_from<T>(s: Table<T>, k: Seq<char>, i: int) -> int
    decreases s.len() - i,
{
    if i < 0 || i >= s.len() {
        s.len() as int
    } else if s[i].0 == k {
        i
    } else {
        entry_index_from(s, k, i + 1)
    }
}

/// Where the key `k` first stands in `s`, or `s.len()`.
pub open spec fn entry_index<T>(s: Table<T>, k: Seq<char>) -> int {
    entry_index_from(s, k, 0)
}

/// The value stored under `k`, if any.
pub open spec fn table_get<T>(s: Table<T>, k: Seq<char>) -> Option<T> {
    let i = entry_index(s, k);
    if 0 <= i < s.len() {
        Some(s[i].1)
    } else {
        None
    }
}

/// `s` after storing `v` under `k`, in place of what was stored there.
pub open spec fn table_insert<T>(s: Table<T>, k: Seq<char>, v: T) -> Table<T> {
    let i = entry_index(s, k);
    if 0 <= i < s.len() {
        s.update(i, (k, v))
    } else {
        s.push((k, v))
    }
}

/// `s` without what was stored under `k`.
pub open spec fn table_remove<T>(s: Table<T>, k: Seq<char>) -> Table<T> {
    let i = entry_index(s, k);
    if 0 <= i < s.len() {
        s.remove(i)
    } else {
        s
    }
}

pub proof fn lemma_entry_index_from<T>(s: Table<T>, k: Seq<char>, i: int)
    requires
        0 <= i <= s.len(),
    ensures
        i <= entry_index_from(s, k, i) <= s.len(),
        entry_index_from(s, k, i) < s.len() ==> s[entry_index_from(s, k, i)].0 == k,
        forall|j: int| i <= j < entry_index_from(s, k, i) ==> s[j].0 != k,
    decreases s.len() - i,
{
    if i < s.len() && s[i].0 != k {
        lemma_entry_index_from(s, k, i + 1);
    }
}

/// No key occurs twice.
pub open spec fn keys_unique<T>(s: Table<T>) -> bool {
    forall|i: int, j: int| 0 <= i < j < s.len() ==> s[i].0 != s[j].0
}

/// Law: storing under a key keeps the keys unique.
pub proof fn law_table_insert_keeps_keys_unique<T>(s: Table<T>, k: Seq<char>, v: T)
    requires
        keys_unique(s),
    ensures
        keys_unique(table_insert(s, k, v)),
{
    lemma_entry_index_from(s, k, 0);
}

/// Removing a key keeps the keys unique.
pub proof fn lemma_table_remove_unique<T>(s: Table<T>, k: Seq<char>)
    requires
        keys_unique(s),
    ensures
        keys_unique(table_remove(s, k)),
{
    let t = table_remove(s, k);
    let i = entry_index(s, k);
    lemma_entry_index_from(s, k, 0);
    if 0 <= i < s.len() {
        assert forall|a: int, b: int| 0 <= a < b < t.len() implies t[a].0 != t[b].0 by {
            let a2 = if a < i { a } else { a + 1 };
            let b2 = if b < i { b } else { b + 1 };
            assert(t[a] == s[a2]);
            assert(t[b] == s[b2]);
        }
    }
}

/// Law: reading a key after storing under it gives what was stored; other
/// keys keep their values.
pub proof fn law_table_get_after_insert<T>(s: Table<T>, k: Seq<char>, v: T, k2: Seq<char>)
    ensures
        table_get(table_insert(s, k, v), k2) == (if k2 == k {
            Some(v)
        } else {
            table_get(s, k2)
        }),
{
    let t = table_insert(s, k, v);
    lemma_entry_index_from(s, k, 0);
    lemma_entry_index_from(s, k2, 0);
    lemma_entry_index_from(t, k2, 0);
    let i = entry_index(s, k);
    let a = entry_index(s, k2);
    let b = entry_index(t, k2);
    assert forall|j: int| 0 <= j < s.len() implies #[trigger] t[j].0 == s[j].0 by {
        if j == i {
            assert(s[i].0 == k);
        }
    }
    if k2 == k {
        assert(t[i].0 == k);
        assert(b <= i);
    } else {
        if a < s.len() {
            assert(t[a].0 == k2);
            assert(b <= a);
            if b < a {
                assert(s[b].0 == k2);
            }
            assert(a != i);
        } else {
            assert(b == t.len()) by {
                if b < t.len() {
                    if b < s.len() {
                        assert(s[b].0 == k2);
                    } else {
                        assert(t[b].0 == k);
                    }
                }
            }
        }
    }
}

/// Law: in a table whose keys are unique, reading a key after removing it
/// finds nothing.
pub proof fn law_table_get_after_remove<T>(s: Table<T>, k: Seq<char>)
    requires
        keys_unique(s),
    ensures
        table_get(table_remove(s, k), k) is None,
{
    let t = table_remove(s, k);
    lemma_entry_index_from(s, k, 0);
    lemma_entry_index_from(t, k, 0);
    let i = entry_index(s, k);
    let b = entry_index(t, k);
    if b < t.len() {
        if i < s.len() {
            if b < i {
                assert(t[b] == s[b]);
            } else {
                assert(t[b] == s[b + 1]);
            }
        } else {
            assert(t[b] == s[b]);
        }
    }
}

/// Law: removing a key leaves every other key with the value it had.
pub proof fn law_table_remove_keeps_others<T>(s: Table<T>, k: Seq<char>, k2: Seq<char>)
    requires
        k2 != k,
    ensures
        table_get(table_remove(s, k), k2) == table_get(s, k2),
{
    let t = table_remove(s, k);
    let i = entry_index(s, k);
    lemma_entry_index_from(s, k, 0);
    lemma_entry_index_from(s, k2, 0);
    lemma_entry_index_from(t, k2, 0);
    if 0 <= i < s.len() {
        let a = entry_index(s, k2);
        let b = entry_index(t, k2);
        assert(t.len() == s.len() - 1);
        assert forall|j: int| 0 <= j < t.len() implies #[trigger] t[j] == (if j < i {
            s[j]
        } else {
            s[j + 1]
        }) by {}
        if a < s.len() {
            assert(a != i);
            let a2 = if a < i { a } else { a - 1 };
            assert(t[a2] == s[a]);
            assert(b <= a2);
            if b < a2 {
                if b < i {
                    assert(t[b] == s[b]);
                } else {
                    assert(t[b] == s[b + 1]);
                }
                assert(false);
            }
        } else {
            if b < t.len() {
                if b < i {
                    assert(t[b] == s[b]);
                } else {
                    assert(t[b] == s[b + 1]);
                }
                assert(false);
            }
        }
    }
}

} // verus!
