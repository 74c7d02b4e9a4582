//! String-keyed association tables with unique keys.
//!
//! Both store tables are vectors of key/value pairs whose keys are pairwise
//! distinct; lookups, upserts and removals are specified through the
//! first-match [`lookup`] function.

use vstd::prelude::*;

verus! {

/// The keys of the pairs are pairwise distinct.
pub open spec fn keys_unique<V>(s: Seq<(String, V)>) -> bool {
    forall|i: int, j: int| 0 <= i < j < s.len() ==> s[i].0@ != s[j].0@
}

/// Some pair carries this key.
pub open spec fn has_key<V>(s: Seq<(String, V)>, k: Seq<char>) -> bool {
    exists|i: int| 0 <= i < s.len() && s[i].0@ == k
}

/// The value of the first pair carrying the key, if any.
pub open spec fn lookup<V>(s: Seq<(String, V)>, k: Seq<char>) -> Option<V>
    decreases s.len(),
{
    if s.len() == 0 {
        None
    } else if s[0].0@ == k {
        Some(s[0].1)
    } else {
        lookup(s.drop_first(), k)
    }
}

/// The value of the last pair carrying the key, if any.
pub open spec fn lookup_last<V>(s: Seq<(String, V)>, k: Seq<char>) -> Option<V>
    decreases s.len(),
{
    if s.len() == 0 {
        None
    } else if s.last().0@ == k {
        Some(s.last().1)
    } else {
        lookup_last(s.drop_last(), k)
    }
}

/// How many pairs carry this key.
pub open spec fn count_key<V>(s: Seq<(String, V)>, k: Seq<char>) -> nat
    decreases s.len(),
{
    if s.len() == 0 {
        0
    } else {
        count_key(s.drop_first(), k) + if s[0].0@ == k {
            1nat
        } else {
            0nat
        }
    }
}

/// A table without the key looks it up to `None`.
pub proof fn lemma_lookup_absent<V>(s: Seq<(String, V)>, k: Seq<char>)
    requires
        forall|i: int| 0 <= i < s.len() ==> s[i].0@ != k,
    ensures
        lookup(s, k) is None,
    decreases s.len(),
{
    if s.len() > 0 {
        assert(forall|i: int|
            0 <= i < s.drop_first().len() ==> s.drop_first()[i].0@ != k);
        lemma_lookup_absent(s.drop_first(), k);
    }
}

/// With unique keys, a pair's value is what its key looks up to.
pub proof fn lemma_lookup_at<V>(s: Seq<(String, V)>, k: Seq<char>, i: int)
    requires
        keys_unique(s),
        0 <= i < s.len(),
        s[i].0@ == k,
    ensures
        lookup(s, k) == Some(s[i].1),
    decreases s.len(),
{
    if i > 0 {
        assert(s[0].0@ != k);
        assert(keys_unique(s.drop_first())) by {
            assert(forall|x: int, y: int|
                0 <= x < y < s.drop_first().len()
                    ==> s.drop_first()[x].0@ == s[x + 1].0@ && s.drop_first()[y].0@ == s[y
                    + 1].0@);
        }
        lemma_lookup_at(s.drop_first(), k, i - 1);
    }
}

/// A lookup succeeds exactly on the keys the table has.
pub proof fn lemma_lookup_has_key<V>(s: Seq<(String, V)>, k: Seq<char>)
    ensures
        lookup(s, k) is Some <==> has_key(s, k),
    decreases s.len(),
{
    if s.len() > 0 && s[0].0@ != k {
        lemma_lookup_has_key(s.drop_first(), k);
        if has_key(s.drop_first(), k) {
            let i = choose|i: int|
                0 <= i < s.drop_first().len() && s.drop_first()[i].0@ == k;
            assert(s[i + 1].0@ == k);
        }
        if has_key(s, k) {
            let i = choose|i: int| 0 <= i < s.len() && s[i].0@ == k;
            assert(s.drop_first()[i - 1].0@ == k);
        }
    }
}

/// With unique keys a present key is carried by exactly one pair.
pub proof fn lemma_unique_count<V>(s: Seq<(String, V)>, k: Seq<char>)
    requires
        keys_unique(s),
    ensures
        count_key(s, k) <= 1,
        has_key(s, k) ==> count_key(s, k) == 1,
    decreases s.len(),
{
    if s.len() > 0 {
        assert(keys_unique(s.drop_first())) by {
            assert(forall|x: int, y: int|
                0 <= x < y < s.drop_first().len()
                    ==> s.drop_first()[x].0@ == s[x + 1].0@ && s.drop_first()[y].0@ == s[y
                    + 1].0@);
        }
        lemma_unique_count(s.drop_first(), k);
        if s[0].0@ == k {
            assert(forall|i: int|
                0 <= i < s.drop_first().len() ==> s.drop_first()[i].0@ != k);
            if has_key(s.drop_first(), k) {
                let i = choose|i: int|
                    0 <= i < s.drop_first().len() && s.drop_first()[i].0@ == k;
                assert(false);
            }
            lemma_lookup_has_key(s.drop_first(), k);
            lemma_lookup_absent(s.drop_first(), k);
            assert(count_key(s.drop_first(), k) == 0) by {
                lemma_count_zero(s.drop_first(), k);
            }
        } else {
            if has_key(s, k) {
                let i = choose|i: int| 0 <= i < s.len() && s[i].0@ == k;
                assert(s.drop_first()[i - 1].0@ == k);
                assert(has_key(s.drop_first(), k));
            }
        }
    }
}

/// A table without the key carries it zero times.
pub proof fn lemma_count_zero<V>(s: Seq<(String, V)>, k: Seq<char>)
    requires
        forall|i: int| 0 <= i < s.len() ==> s[i].0@ != k,
    ensures
        count_key(s, k) == 0,
    decreases s.len(),
{
    if s.len() > 0 {
        assert(forall|i: int|
            0 <= i < s.drop_first().len() ==> s.drop_first()[i].0@ != k);
        lemma_count_zero(s.drop_first(), k);
    }
}

/// A successful lookup names a pair of the table.
pub proof fn lemma_lookup_index<V>(s: Seq<(String, V)>, k: Seq<char>)
    requires
        keys_unique(s),
        lookup(s, k) is Some,
    ensures
        exists|i: int|
            0 <= i < s.len() && (#[trigger] s[i]).0@ == k && s[i].1 == lookup(s, k).unwrap(),
{
    lemma_lookup_has_key(s, k);
    let i = choose|i: int| 0 <= i < s.len() && s[i].0@ == k;
    lemma_lookup_at(s, k, i);
    assert(s[i].0@ == k && s[i].1 == lookup(s, k).unwrap());
}

/// Replacing a pair by one with the same key leaves other keys' lookups alone.
proof fn lemma_lookup_update_other<V>(s: Seq<(String, V)>, i: int, p: (String, V), k: Seq<char>)
    requires
        0 <= i < s.len(),
        p.0@ == s[i].0@,
        k != p.0@,
    ensures
        lookup(s.update(i, p), k) == lookup(s, k),
    decreases s.len(),
{
    let t = s.update(i, p);
    if i == 0 {
        assert(t.drop_first() =~= s.drop_first());
    } else {
        assert(t[0] == s[0]);
        if s[0].0@ != k {
            assert(t.drop_first() =~= s.drop_first().update(i - 1, p));
            lemma_lookup_update_other(s.drop_first(), i - 1, p, k);
        }
    }
}

/// Appending a pair with another key leaves a lookup alone.
proof fn lemma_lookup_push_other<V>(s: Seq<(String, V)>, p: (String, V), k: Seq<char>)
    requires
        p.0@ != k,
    ensures
        lookup(s.push(p), k) == lookup(s, k),
    decreases s.len(),
{
    if s.len() == 0 {
        assert(s.push(p)[0] == p);
        assert(s.push(p).drop_first() =~= Seq::<(String, V)>::empty());
        assert(lookup(s.push(p).drop_first(), k) is None);
        assert(lookup(s.push(p), k) is None);
        assert(lookup(s, k) is None);
    } else {
        assert(s.push(p)[0] == s[0]);
        if s[0].0@ != k {
            assert(s.push(p).drop_first() =~= s.drop_first().push(p));
            lemma_lookup_push_other(s.drop_first(), p, k);
            assert(lookup(s.push(p), k) == lookup(s.push(p).drop_first(), k));
            assert(lookup(s, k) == lookup(s.drop_first(), k));
        } else {
            assert(lookup(s.push(p), k) == Some(s[0].1));
            assert(lookup(s, k) == Some(s[0].1));
        }
    }
}

/// Removing a pair leaves other keys' lookups alone.
proof fn lemma_lookup_remove_other<V>(s: Seq<(String, V)>, i: int, k: Seq<char>)
    requires
        0 <= i < s.len(),
        k != s[i].0@,
    ensures
        lookup(s.remove(i), k) == lookup(s, k),
    decreases s.len(),
{
    let t = s.remove(i);
    if i == 0 {
        assert(t =~= s.drop_first());
    } else {
        assert(t[0] == s[0]);
        if s[0].0@ != k {
            assert(t.drop_first() =~= s.drop_first().remove(i - 1));
            lemma_lookup_remove_other(s.drop_first(), i - 1, k);
        }
    }
}

/// The value the table holds for this key, if any.
pub fn table_get<'a, V>(t: &'a Vec<(String, V)>, key: &String) -> (r: Option<&'a V>)
    requires
        keys_unique(t@),
    ensures
        match r {
            Some(v) => lookup(t@, key@) == Some(*v),
            None => lookup(t@, key@) is None,
        },
{
    let n = t.len();
    let mut i: usize = 0;
    while i < n
        invariant
            keys_unique(t@),
            n == t@.len(),
            i <= n,
            forall|j: int| 0 <= j < i ==> t@[j].0@ != key@,
        decreases n - i,
    {
        if t[i].0 == *key {
            proof {
                lemma_lookup_at(t@, key@, i as int);
            }
            return Some(&t[i].1);
        }
        i = i + 1;
    }
    proof {
        lemma_lookup_absent(t@, key@);
    }
    None
}

/// Upserts: replaces the pair with this key, or appends one.
pub fn table_put<V>(t: &mut Vec<(String, V)>, key: String, val: V)
    requires
        keys_unique(old(t)@),
    ensures
        keys_unique(final(t)@),
        lookup(final(t)@, key@) == Some(val),
        forall|k2: Seq<char>| k2 != key@ ==> lookup(final(t)@, k2) == lookup(old(t)@, k2),
        final(t)@.len() <= old(t)@.len() + 1,
        has_key(old(t)@, key@) ==> final(t)@.len() == old(t)@.len(),
        !has_key(old(t)@, key@) ==> final(t)@ == old(t)@.push((key, val)),
        has_key(old(t)@, key@) ==> exists|i: int|
            0 <= i < old(t)@.len() && old(t)@[i].0@ == key@ && final(t)@ == old(t)@.update(
                i,
                (key, val),
            ),
{
    let n = t.len();
    let mut i: usize = 0;
    while i < n
        invariant
            keys_unique(t@),
            t@ == old(t)@,
            n == t@.len(),
            i <= n,
            forall|j: int| 0 <= j < i ==> t@[j].0@ != key@,
        decreases n - i,
    {
        if t[i].0 == key {
            let ghost s = t@;
            let ghost ii = i as int;
            t.set(i, (key, val));
            proof {
                assert(has_key(s, s[ii].0@));
                assert(t@ =~= s.update(ii, (t@[ii].0, t@[ii].1)));
                assert(forall|j: int| 0 <= j < t@.len() ==> t@[j].0@ == s[j].0@);
                lemma_lookup_at(t@, t@[ii].0@, ii);
                assert forall|k2: Seq<char>| k2 != t@[ii].0@ implies lookup(t@, k2) == lookup(
                    s,
                    k2,
                ) by {
                    lemma_lookup_update_other(s, ii, t@[ii], k2);
                }
            }
            return ;
        }
        i = i + 1;
    }
    let ghost s = t@;
    t.push((key, val));
    proof {
        let p = t@.last();
        assert(t@ =~= s.push(p));
        assert(keys_unique(t@)) by {
            assert(forall|j: int| 0 <= j < s.len() ==> t@[j] == s[j]);
        }
        lemma_lookup_at(t@, p.0@, s.len() as int);
        assert forall|k2: Seq<char>| k2 != p.0@ implies lookup(t@, k2) == lookup(s, k2) by {
            lemma_lookup_push_other(s, p, k2);
        }
    }
}

/// Removes the pair with this key, if the table has one.
pub fn table_remove<V>(t: &mut Vec<(String, V)>, key: &String)
    requires
        keys_unique(old(t)@),
    ensures
        keys_unique(final(t)@),
        lookup(final(t)@, key@) is None,
        forall|k2: Seq<char>| k2 != key@ ==> lookup(final(t)@, k2) == lookup(old(t)@, k2),
        !has_key(old(t)@, key@) ==> final(t)@ == old(t)@,
        has_key(old(t)@, key@) ==> exists|i: int|
            0 <= i < old(t)@.len() && old(t)@[i].0@ == key@ && final(t)@ == old(t)@.remove(i),
{
    let n = t.len();
    let mut i: usize = 0;
    while i < n
        invariant
            keys_unique(t@),
            t@ == old(t)@,
            n == t@.len(),
            i <= n,
            forall|j: int| 0 <= j < i ==> t@[j].0@ != key@,
        decreases n - i,
    {
        if t[i].0 == *key {
            let ghost s = t@;
            let ghost ii = i as int;
            t.remove(i);
            proof {
                assert(has_key(s, s[ii].0@));
                assert(t@ =~= s.remove(ii));
                assert(keys_unique(t@)) by {
                    assert(forall|j: int|
                        0 <= j < t@.len() ==> (if j < ii {
                            t@[j] == s[j]
                        } else {
                            t@[j] == s[j + 1]
                        }));
                }
                assert(forall|j: int| 0 <= j < t@.len() ==> t@[j].0@ != key@);
                lemma_lookup_absent(t@, key@);
                assert forall|k2: Seq<char>| k2 != key@ implies lookup(t@, k2) == lookup(
                    s,
                    k2,
                ) by {
                    lemma_lookup_remove_other(s, ii, k2);
                }
            }
            return ;
        }
        i = i + 1;
    }
    proof {
        lemma_lookup_absent(t@, key@);
    }
}

} // verus!
