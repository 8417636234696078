//! An ordered map from string keys to values, kept as a vector sorted
//! strictly ascending by key. Both the in-memory write buffer and a run's
//! index are instances of it.

use vstd::prelude::*;

use crate::order::{lex_lt, key_compare, KeyOrder, lemma_lex_trichotomy, lemma_lex_transitive};

verus! {

/// The first value bound to k in an association sequence, if any.
pub open spec fn assoc_get<T>(s: Seq<(Seq<char>, T)>, k: Seq<char>) -> Option<T>
    decreases s.len(),
{
    if s.len() == 0 {
        None
    } else if s[0].0 == k {
        Some(s[0].1)
    } else {
        assoc_get(s.drop_first(), k)
    }
}

/// Looking a key up in a concatenation reads the left part first.
pub proof fn lemma_assoc_concat<T>(a: Seq<(Seq<char>, T)>, b: Seq<(Seq<char>, T)>, k: Seq<char>)
    ensures
        assoc_get(a + b, k) == match assoc_get(a, k) {
            Some(v) => Some(v),
            None => assoc_get(b, k),
        },
    decreases a.len(),
{
    if a.len() == 0 {
        assert(a + b =~= b);
    } else {
        assert((a + b).drop_first() =~= a.drop_first() + b);
        lemma_assoc_concat(a.drop_first(), b, k);
    }
}

/// A key bound nowhere is not found.
pub proof fn lemma_assoc_absent<T>(s: Seq<(Seq<char>, T)>, k: Seq<char>)
    requires
        forall|i: int| 0 <= i < s.len() ==> s[i].0 != k,
    ensures
        assoc_get(s, k) is None,
    decreases s.len(),
{
    if s.len() > 0 {
        lemma_assoc_absent(s.drop_first(), k);
    }
}

/// A found binding sits somewhere in the sequence.
pub proof fn lemma_assoc_present<T>(s: Seq<(Seq<char>, T)>, k: Seq<char>)
    requires
        assoc_get(s, k) is Some,
    ensures
        exists|i: int|
            0 <= i < s.len() && s[i].0 == k && s[i].1 == assoc_get(s, k)->0,
    decreases s.len(),
{
    if s.len() > 0 {
        if s[0].0 == k {
            assert(s[0].0 == k && s[0].1 == assoc_get(s, k)->0);
        } else {
            lemma_assoc_present(s.drop_first(), k);
            let j = choose|j: int|
                0 <= j < s.drop_first().len() && s.drop_first()[j].0 == k && s.drop_first()[j].1
                    == assoc_get(s.drop_first(), k)->0;
            assert(s[j + 1].0 == k && s[j + 1].1 == assoc_get(s, k)->0);
        }
    }
}

/// Whether an association sequence is sorted strictly ascending by key.
pub open spec fn keys_sorted<T>(s: Seq<(Seq<char>, T)>) -> bool {
    forall|i: int, j: int| 0 <= i < j < s.len() ==> lex_lt(s[i].0, s[j].0)
}

/// In a sorted sequence any binding of k determines the lookup.
pub proof fn lemma_assoc_at<T>(s: Seq<(Seq<char>, T)>, i: int)
    requires
        keys_sorted(s),
        0 <= i < s.len(),
    ensures
        assoc_get(s, s[i].0) == Some(s[i].1),
    decreases s.len(),
{
    if i == 0 {
    } else {
        assert(lex_lt(s[0].0, s[i].0));
        lemma_lex_trichotomy(s[0].0, s[i].0);
        assert(forall|a: int, b: int|
            0 <= a < b < s.drop_first().len() ==> lex_lt(
                s.drop_first()[a].0,
                s.drop_first()[b].0,
            ));
        lemma_assoc_at(s.drop_first(), i - 1);
    }
}

/// An ordered map from string keys to values, its entries sorted strictly
/// ascending by key.
pub struct SortedMap<V> {
    entries: Vec<(String, V)>,
}

impl<V: View> SortedMap<V> {
    /// The entry sequence as mathematical values, in storage order.
    pub closed spec fn entries_view(&self) -> Seq<(Seq<char>, V::V)> {
        self.entries@.map(|_i: int, p: (String, V)| (p.0@, p.1@))
    }

    /// Well-formed: keys strictly ascending.
    pub open spec fn wf(&self) -> bool {
        keys_sorted(self.entries_view())
    }

    /// The lookup function the map denotes.
    pub open spec fn spec_get(&self, k: Seq<char>) -> Option<V::V> {
        assoc_get(self.entries_view(), k)
    }

    pub fn new() -> (r: Self)
        ensures
            r.wf(),
            r.entries_view() == Seq::<(Seq<char>, V::V)>::empty(),
    {
        let r = SortedMap { entries: Vec::new() };
        proof {
            assert(r.entries_view() =~= Seq::<(Seq<char>, V::V)>::empty());
        }
        r
    }

    pub fn len(&self) -> (r: usize)
        ensures
            r == self.entries_view().len(),
    {
        self.entries.len()
    }

    /// Borrows the entry at position i, in key order.
    pub fn entry_at(&self, i: usize) -> (r: &(String, V))
        requires
            i < self.entries_view().len(),
        ensures
            (r.0@, r.1@) == self.entries_view()[i as int],
    {
        &self.entries[i]
    }

    /// Looks a key up.
    pub fn get(&self, key: &str) -> (r: Option<&V>)
        requires
            self.wf(),
        ensures
            match r {
                Some(v) => self.spec_get(key@) == Some(v@),
                None => self.spec_get(key@) is None,
            },
    {
        let n: usize = self.entries.len();
        let mut i: usize = 0;
        while i < n
            invariant
                i <= n,
                n == self.entries_view().len(),
                self.wf(),
                forall|j: int| 0 <= j < i ==> self.entries_view()[j].0 != key@,
            decreases n - i,
        {
            match key_compare(self.entries[i].0.as_str(), key) {
                KeyOrder::Equal => {
                    proof {
                        lemma_assoc_at(self.entries_view(), i as int);
                    }
                    return Some(&self.entries[i].1);
                },
                _ => {
                    proof {
                        lemma_lex_trichotomy(self.entries_view()[i as int].0, key@);
                    }
                },
            }
            i = i + 1;
        }
        proof {
            lemma_assoc_absent(self.entries_view(), key@);
        }
        None
    }

    /// Binds key to value, overwriting any earlier binding.
    pub fn insert(&mut self, key: &str, value: V)
        requires
            old(self).wf(),
        ensures
            final(self).wf(),
            final(self).spec_get(key@) == Some(value@),
            forall|k: Seq<char>|
                k != key@ ==> final(self).spec_get(k) == old(self).spec_get(k),
            old(self).spec_get(key@) is Some ==> final(self).entries_view().len() == old(
                self,
            ).entries_view().len(),
            old(self).spec_get(key@) is None ==> final(self).entries_view().len() == old(
                self,
            ).entries_view().len() + 1,
            forall|e: (Seq<char>, V::V)|
                final(self).entries_view().contains(e) ==> e == (key@, value@) || old(
                    self,
                ).entries_view().contains(e),
    {
        let ghost pre = self.entries_view();
        let n: usize = self.entries.len();
        let mut i: usize = 0;
        while i < n
            invariant
                i <= n,
                n == self.entries_view().len(),
                self.wf(),
                self.entries_view() == pre,
                pre == old(self).entries_view(),
                forall|j: int| 0 <= j < i ==> lex_lt(self.entries_view()[j].0, key@),
            decreases n - i,
        {
            match key_compare(self.entries[i].0.as_str(), key) {
                KeyOrder::Equal => {
                    // replace in place
                    let owned_key = String::from_str(key);
                    self.entries.set(i, (owned_key, value));
                    proof {
                        let post = self.entries_view();
                        assert(post =~= pre.update(i as int, (key@, value@)));
                        lemma_sorted_update(pre, i as int, key@, value@);
                        lemma_assoc_update(pre, i as int, key@, value@);
                        lemma_assoc_at(pre, i as int);
                        assert forall|e: (Seq<char>, V::V)|
                            post.contains(e) implies e == (key@, value@) || pre.contains(e) by {
                            let l = choose|l: int| 0 <= l < post.len() && post[l] == e;
                            if l != i {
                                assert(pre[l] == e);
                            }
                        }
                    }
                    return ;
                },
                KeyOrder::Greater => {
                    // entries[i].0 is above key: insert here
                    let owned_key = String::from_str(key);
                    self.entries.insert(i, (owned_key, value));
                    proof {
                        let post = self.entries_view();
                        assert(post =~= pre.insert(i as int, (key@, value@)));
                        assert(forall|j: int|
                            i <= j < pre.len() ==> lex_lt(key@, pre[j].0)) by {
                            assert forall|j: int| i <= j < pre.len() implies lex_lt(
                                key@,
                                pre[j].0,
                            ) by {
                                if j > i {
                                    assert(lex_lt(pre[i as int].0, pre[j].0));
                                    lemma_lex_transitive(key@, pre[i as int].0, pre[j].0);
                                }
                            }
                        }
                        assert forall|j: int| 0 <= j < pre.len() implies pre[j].0 != key@ by {
                            if j < i {
                                lemma_lex_trichotomy(pre[j].0, key@);
                            } else if j == i {
                                lemma_lex_trichotomy(key@, pre[j].0);
                            } else {
                                assert(lex_lt(pre[i as int].0, pre[j].0));
                                lemma_lex_transitive(key@, pre[i as int].0, pre[j].0);
                                lemma_lex_trichotomy(key@, pre[j].0);
                            }
                        }
                        lemma_assoc_absent(pre, key@);
                        lemma_sorted_insert(pre, i as int, key@, value@);
                        lemma_assoc_insert(pre, i as int, key@, value@);
                        assert forall|e: (Seq<char>, V::V)|
                            post.contains(e) implies e == (key@, value@) || pre.contains(e) by {
                            let l = choose|l: int| 0 <= l < post.len() && post[l] == e;
                            if l < i {
                                assert(pre[l] == e);
                            } else if l > i {
                                assert(pre[l - 1] == e);
                            }
                        }
                    }
                    return ;
                },
                KeyOrder::Less => {
                },
            }
            i = i + 1;
        }
        let owned_key = String::from_str(key);
        self.entries.push((owned_key, value));
        proof {
            let post = self.entries_view();
            assert(post =~= pre.insert(pre.len() as int, (key@, value@)));
            assert forall|j: int| 0 <= j < pre.len() implies pre[j].0 != key@ by {
                lemma_lex_trichotomy(pre[j].0, key@);
            }
            lemma_assoc_absent(pre, key@);
            lemma_sorted_insert(pre, pre.len() as int, key@, value@);
            lemma_assoc_insert(pre, pre.len() as int, key@, value@);
            assert forall|e: (Seq<char>, V::V)|
                post.contains(e) implies e == (key@, value@) || pre.contains(e) by {
                let l = choose|l: int| 0 <= l < post.len() && post[l] == e;
                if l < pre.len() {
                    assert(pre[l] == e);
                }
            }
        }
    }

    /// Appends a binding whose key lies above every present key.
    pub fn push_max(&mut self, key: String, value: V)
        requires
            old(self).wf(),
            forall|j: int|
                0 <= j < old(self).entries_view().len() ==> lex_lt(
                    old(self).entries_view()[j].0,
                    key@,
                ),
        ensures
            final(self).wf(),
            final(self).entries_view() == old(self).entries_view().push((key@, value@)),
    {
        let ghost pre = self.entries_view();
        self.entries.push((key, value));
        proof {
            let post = self.entries_view();
            assert(post =~= pre.push((key@, value@)));
            assert(post =~= pre.insert(pre.len() as int, (key@, value@)));
            lemma_sorted_insert(pre, pre.len() as int, key@, value@);
        }
    }

    /// Takes every entry out, leaving the map empty. The entries come back
    /// in ascending key order.
    pub fn take_all(&mut self) -> (r: Vec<(String, V)>)
        ensures
            final(self).wf(),
            final(self).entries_view() == Seq::<(Seq<char>, V::V)>::empty(),
            r@.map(|_i: int, p: (String, V)| (p.0@, p.1@)) == old(self).entries_view(),
    {
        let mut taken: Vec<(String, V)> = Vec::new();
        std::mem::swap(&mut taken, &mut self.entries);
        proof {
            assert(self.entries_view() =~= Seq::<(Seq<char>, V::V)>::empty());
        }
        taken
    }
}

/// Updating position i with the same key keeps the sort.
pub proof fn lemma_sorted_update<T>(s: Seq<(Seq<char>, T)>, i: int, k: Seq<char>, v: T)
    requires
        keys_sorted(s),
        0 <= i < s.len(),
        s[i].0 == k,
    ensures
        keys_sorted(s.update(i, (k, v))),
{
}

/// After an in-place overwrite the lookup of the key yields the new value
/// and every other key reads as before.
pub proof fn lemma_assoc_update<T>(s: Seq<(Seq<char>, T)>, i: int, k: Seq<char>, v: T)
    requires
        keys_sorted(s),
        0 <= i < s.len(),
        s[i].0 == k,
    ensures
        assoc_get(s.update(i, (k, v)), k) == Some(v),
        forall|k2: Seq<char>|
            k2 != k ==> assoc_get(s.update(i, (k, v)), k2) == assoc_get(s, k2),
    decreases s.len(),
{
    let t = s.update(i, (k, v));
    if i == 0 {
        assert(t[0].0 == k);
        assert(t.drop_first() =~= s.drop_first());
        assert forall|k2: Seq<char>| k2 != k implies assoc_get(t, k2) == assoc_get(s, k2) by {
            assert(assoc_get(t, k2) == assoc_get(t.drop_first(), k2));
            assert(assoc_get(s, k2) == assoc_get(s.drop_first(), k2));
        }
    } else {
        assert(lex_lt(s[0].0, s[i].0));
        lemma_lex_trichotomy(s[0].0, k);
        assert(s[0].0 != k);
        assert(t[0] == s[0]);
        assert(t.drop_first() =~= s.drop_first().update(i - 1, (k, v)));
        assert forall|a: int, b: int|
            0 <= a < b < s.drop_first().len() implies lex_lt(
            s.drop_first()[a].0,
            s.drop_first()[b].0,
        ) by {
            assert(s.drop_first()[a] == s[a + 1]);
            assert(s.drop_first()[b] == s[b + 1]);
        }
        lemma_assoc_update(s.drop_first(), i - 1, k, v);
        assert(assoc_get(t, k) == assoc_get(t.drop_first(), k));
        assert forall|k2: Seq<char>| k2 != k implies assoc_get(t, k2) == assoc_get(s, k2) by {
            if s[0].0 == k2 {
            } else {
                assert(assoc_get(t, k2) == assoc_get(t.drop_first(), k2));
                assert(assoc_get(s, k2) == assoc_get(s.drop_first(), k2));
            }
        }
    }
}

/// Inserting at a position that respects the sort keeps the sort.
pub proof fn lemma_sorted_insert<T>(s: Seq<(Seq<char>, T)>, i: int, k: Seq<char>, v: T)
    requires
        keys_sorted(s),
        0 <= i <= s.len(),
        forall|j: int| 0 <= j < i ==> lex_lt(s[j].0, k),
        forall|j: int| i <= j < s.len() ==> lex_lt(k, s[j].0),
    ensures
        keys_sorted(s.insert(i, (k, v))),
{
    let t = s.insert(i, (k, v));
    assert forall|a: int, b: int| 0 <= a < b < t.len() implies lex_lt(t[a].0, t[b].0) by {
        if a < i && b < i {
            assert(t[a] == s[a] && t[b] == s[b]);
        } else if a < i && b == i {
            assert(t[a] == s[a]);
        } else if a < i && b > i {
            assert(t[a] == s[a] && t[b] == s[b - 1]);
        } else if a == i && b > i {
            assert(t[b] == s[b - 1]);
        } else if a > i && b > i {
            assert(t[a] == s[a - 1] && t[b] == s[b - 1]);
        }
    }
}

/// After an insertion the lookup of the new key yields its value and every
/// other key reads as before.
pub proof fn lemma_assoc_insert<T>(s: Seq<(Seq<char>, T)>, i: int, k: Seq<char>, v: T)
    requires
        0 <= i <= s.len(),
        forall|j: int| 0 <= j < i ==> s[j].0 != k,
    ensures
        assoc_get(s.insert(i, (k, v)), k) == Some(v),
        forall|k2: Seq<char>|
            k2 != k ==> assoc_get(s.insert(i, (k, v)), k2) == assoc_get(s, k2),
{
    let t = s.insert(i, (k, v));
    assert(t =~= s.take(i) + (seq![(k, v)] + s.skip(i)));
    lemma_assoc_absent(s.take(i), k);
    lemma_assoc_concat(s.take(i), seq![(k, v)] + s.skip(i), k);
    assert((seq![(k, v)] + s.skip(i))[0].0 == k);
    assert forall|k2: Seq<char>| k2 != k implies assoc_get(t, k2) == assoc_get(s, k2) by {
        lemma_assoc_concat(s.take(i), seq![(k, v)] + s.skip(i), k2);
        assert((seq![(k, v)] + s.skip(i)).drop_first() =~= s.skip(i));
        lemma_assoc_concat(s.take(i), s.skip(i), k2);
        assert(s.take(i) + s.skip(i) =~= s);
    }
}

} // verus!
