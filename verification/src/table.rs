//! A small map from keys to values: for keys that are texts, addresses or pairs of
//! them, and for values that are changed in place.

use vstd::prelude::*;

verus! {

/// Keys that a [`Table`] can hold: values whose views can be compared.
pub trait TableKey: View {
    /// Whether two keys stand for the same thing.
    fn same(&self, other: &Self) -> (b: bool)
        ensures
            b == (self@ == other@),
    ;
}

impl TableKey for u64 {
    fn same(&self, other: &Self) -> (b: bool) {
        *self == *other
    }
}

impl TableKey for String {
    fn same(&self, other: &Self) -> (b: bool) {
        *self == *other
    }
}

impl<A: TableKey, B: TableKey> TableKey for (A, B) {
    fn same(&self, other: &Self) -> (b: bool) {
        self.0.same(&other.0) && self.1.same(&other.1)
    }
}

/// A map kept as a list of entries, one per key.
pub struct Table<K: TableKey, V: View> {
    entries: Vec<(K, V)>,
}

/// The map that a list of entries stands for.
pub open spec fn entries_map<K: View, V: View>(s: Seq<(K, V)>) -> Map<K::V, V::V>
    decreases s.len(),
{
    if s.len() == 0 {
        Map::empty()
    } else {
        entries_map(s.drop_last()).insert(s.last().0@, s.last().1@)
    }
}

/// No key occurs twice.
pub open spec fn keys_unique<K: View, V>(s: Seq<(K, V)>) -> bool {
    forall|i: int, j: int| 0 <= i < j < s.len() ==> #[trigger] s[i].0@ != #[trigger] s[j].0@
}

/// The map of a list of entries holds each of them and nothing else.
pub proof fn lemma_entries_map<K: View, V: View>(s: Seq<(K, V)>)
    requires
        keys_unique(s),
    ensures
        forall|i: int| #![auto] 0 <= i < s.len() ==> entries_map(s).contains_key(s[i].0@)
            && entries_map(s)[s[i].0@] == s[i].1@,
        forall|k: K::V| #[trigger]
            entries_map(s).contains_key(k) ==> exists|i: int|
                0 <= i < s.len() && #[trigger] s[i].0@ == k,
    decreases s.len(),
{
    if s.len() > 0 {
        let t = s.drop_last();
        lemma_entries_map(t);
        assert forall|i: int| #![auto] 0 <= i < s.len() implies entries_map(s).contains_key(s[i].0@)
            && entries_map(s)[s[i].0@] == s[i].1@ by {
            if i < t.len() {
                assert(t[i] == s[i]);
                assert(s[i].0@ != s[s.len() - 1].0@);
            }
        }
        assert forall|k: K::V| #[trigger] entries_map(s).contains_key(k) implies exists|i: int|
            0 <= i < s.len() && #[trigger] s[i].0@ == k by {
            if k == s.last().0@ {
                assert(s[s.len() - 1].0@ == k);
            } else {
                assert(entries_map(t).contains_key(k));
                let i = choose|i: int| 0 <= i < t.len() && #[trigger] t[i].0@ == k;
                assert(s[i].0@ == k);
            }
        }
    }
}

/// Replacing the value of an entry replaces the value of its key.
proof fn lemma_entries_update<K: View, V: View>(s: Seq<(K, V)>, i: int)
    requires
        keys_unique(s),
        0 <= i < s.len(),
    ensures
        forall|v: V| keys_unique(#[trigger] s.update(i, (s[i].0, v))),
        forall|v: V|
            entries_map(#[trigger] s.update(i, (s[i].0, v))) == entries_map(s).insert(s[i].0@, v@),
{
    assert forall|v: V| keys_unique(#[trigger] s.update(i, (s[i].0, v))) && entries_map(
        s.update(i, (s[i].0, v)),
    ) == entries_map(s).insert(s[i].0@, v@) by {
        let t = s.update(i, (s[i].0, v));
        assert forall|a: int, b: int| 0 <= a < b < t.len() implies #[trigger] t[a].0@
            != #[trigger] t[b].0@ by {
            assert(s[a].0@ != s[b].0@);
        }
        let m = entries_map(s).insert(s[i].0@, v@);
        lemma_entries_map(s);
        assert forall|a: int| 0 <= a < t.len() implies m.contains_key((#[trigger] t[a]).0@)
            && m[t[a].0@] == t[a].1@ by {
            if a < i {
                assert(s[a].0@ != s[i].0@);
            } else if a > i {
                assert(s[i].0@ != s[a].0@);
            }
            assert(entries_map(s).contains_key(s[a].0@));
        }
        assert forall|a: int| 0 <= a < s.len() && m.contains_key((#[trigger] s[a]).0@) implies exists|
            j: int,
        | 0 <= j < t.len() && #[trigger] t[j].0@ == s[a].0@ by {
            assert(t[a].0@ == s[a].0@);
        }
        lemma_entries_same(t, m, s);
    }
}

/// A map that agrees with the entries of `t` and has no other keys is the map of `t`.
proof fn lemma_entries_same<K: View, V: View>(t: Seq<(K, V)>, m: Map<K::V, V::V>, s: Seq<(K, V)>)
    requires
        keys_unique(t),
        keys_unique(s),
        forall|i: int|
            0 <= i < t.len() ==> m.contains_key((#[trigger] t[i]).0@) && m[t[i].0@] == t[i].1@,
        forall|k: K::V| #[trigger]
            m.contains_key(k) ==> entries_map(s).contains_key(k) || exists|i: int|
                0 <= i < t.len() && #[trigger] t[i].0@ == k,
        forall|i: int|
            0 <= i < s.len() && m.contains_key((#[trigger] s[i]).0@) ==> exists|j: int|
                0 <= j < t.len() && #[trigger] t[j].0@ == s[i].0@,
    ensures
        entries_map(t) == m,
{
    lemma_entries_map(t);
    lemma_entries_map(s);
    assert forall|k: K::V| m.contains_key(k) == #[trigger] entries_map(t).contains_key(k) by {
        if m.contains_key(k) {
            let i = if exists|i: int| 0 <= i < t.len() && #[trigger] t[i].0@ == k {
                choose|i: int| 0 <= i < t.len() && #[trigger] t[i].0@ == k
            } else {
                let a = choose|a: int| 0 <= a < s.len() && #[trigger] s[a].0@ == k;
                choose|j: int| 0 <= j < t.len() && #[trigger] t[j].0@ == s[a].0@
            };
            assert(t[i].0@ == k);
        }
    }
    assert forall|k: K::V| m.contains_key(k) implies m[k] == #[trigger] entries_map(t)[k] by {
        assert(entries_map(t).contains_key(k));
        let i = choose|i: int| 0 <= i < t.len() && #[trigger] t[i].0@ == k;
        assert(t[i].0@ == k);
    }
    assert(entries_map(t) =~= m);
}

impl<K: TableKey, V: View> View for Table<K, V> {
    type V = Map<K::V, V::V>;

    closed spec fn view(&self) -> Map<K::V, V::V> {
        entries_map(self.entries@)
    }
}

impl<K: TableKey, V: View> Table<K, V> {
    /// Every key has one entry.
    pub closed spec fn wf(&self) -> bool {
        keys_unique(self.entries@)
    }

    /// An empty table.
    pub fn new() -> (t: Self)
        ensures
            t.wf(),
            t@ == Map::<K::V, V::V>::empty(),
    {
        Table { entries: Vec::new() }
    }

    fn position(&self, key: &K) -> (r: Option<usize>)
        requires
            self.wf(),
        ensures
            match r {
                Some(i) => i < self.entries@.len() && self.entries@[i as int].0@ == key@
                    && self@.contains_key(key@) && self@[key@] == self.entries@[i as int].1@,
                None => !self@.contains_key(key@),
            },
    {
        proof {
            lemma_entries_map(self.entries@);
        }
        let mut i: usize = 0;
        while i < self.entries.len()
            invariant
                i <= self.entries@.len(),
                forall|j: int| 0 <= j < i ==> #[trigger] self.entries@[j].0@ != key@,
                forall|j: int| #![auto] 0 <= j < self.entries@.len() ==> self@.contains_key(
                    self.entries@[j].0@,
                ) && self@[self.entries@[j].0@] == self.entries@[j].1@,
            decreases self.entries@.len() - i,
        {
            if self.entries[i].0.same(key) {
                return Some(i);
            }
            i += 1;
        }
        None
    }

    /// The value stored for `key`.
    pub fn get(&self, key: &K) -> (r: Option<&V>)
        requires
            self.wf(),
        ensures
            match r {
                Some(v) => self@.contains_key(key@) && v@ == self@[key@],
                None => !self@.contains_key(key@),
            },
    {
        match self.position(key) {
            Some(i) => Some(&self.entries[i].1),
            None => None,
        }
    }

    /// Whether a value is stored for `key`.
    pub fn contains_key(&self, key: &K) -> (b: bool)
        requires
            self.wf(),
        ensures
            b == self@.contains_key(key@),
    {
        self.position(key).is_some()
    }

    /// A mutable reference to the value stored for `key`.
    pub fn get_mut(&mut self, key: &K) -> (r: Option<&mut V>)
        requires
            old(self).wf(),
        ensures
            final(self).wf(),
            match r {
                Some(v) => old(self)@.contains_key(key@) && v@ == old(self)@[key@] && final(self)@
                    == old(self)@.insert(key@, final(v)@),
                None => !old(self)@.contains_key(key@) && final(self)@ == old(self)@,
            },
    {
        match self.position(key) {
            Some(i) => {
                proof {
                    lemma_entries_update(self.entries@, i as int);
                }
                Some(&mut self.entries[i].1)
            },
            None => None,
        }
    }

    /// Stores `value` for `key`, in place of the value stored before, if any.
    pub fn insert(&mut self, key: K, value: V)
        requires
            old(self).wf(),
        ensures
            final(self).wf(),
            final(self)@ == old(self)@.insert(key@, value@),
    {
        match self.position(&key) {
            Some(i) => {
                proof {
                    lemma_entries_update(self.entries@, i as int);
                }
                self.entries[i].1 = value;
            },
            None => {
                proof {
                    lemma_entries_map(self.entries@);
                    assert(self.entries@.push((key, value)).drop_last() =~= self.entries@);
                }
                self.entries.push((key, value));
            },
        }
    }

    /// Removes the entry of `key` and returns its value.
    pub fn remove(&mut self, key: &K) -> (r: Option<V>)
        requires
            old(self).wf(),
        ensures
            final(self).wf(),
            final(self)@ == old(self)@.remove(key@),
            match r {
                Some(v) => old(self)@.contains_key(key@) && v@ == old(self)@[key@],
                None => !old(self)@.contains_key(key@),
            },
    {
        match self.position(key) {
            Some(i) => {
                let ghost s = self.entries@;
                let (_, v) = self.entries.remove(i);
                proof {
                    let t = self.entries@;
                    lemma_entries_map(s);
                    assert forall|a: int, b: int| 0 <= a < b < t.len() implies #[trigger] t[a].0@
                        != #[trigger] t[b].0@ by {
                        let a1 = if a < i { a } else { a + 1 };
                        let b1 = if b < i { b } else { b + 1 };
                        assert(s[a1].0@ != s[b1].0@);
                    }
                    let m = entries_map(s).remove(key@);
                    assert forall|a: int| 0 <= a < t.len() implies m.contains_key(
                        (#[trigger] t[a]).0@,
                    ) && m[t[a].0@] == t[a].1@ by {
                        let a1 = if a < i { a } else { a + 1 };
                        assert(t[a] == s[a1]);
                        assert(s[a1].0@ != s[i as int].0@);
                    }
                    assert forall|a: int|
                        0 <= a < s.len() && m.contains_key((#[trigger] s[a]).0@) implies exists|
                        j: int,
                    | 0 <= j < t.len() && #[trigger] t[j].0@ == s[a].0@ by {
                        assert(a != i);
                        let j = if a < i { a } else { a - 1 };
                        assert(t[j] == s[a]);
                    }
                    lemma_entries_same(t, m, s);
                }
                Some(v)
            },
            None => {
                assert(self@.remove(key@) =~= self@);
                None
            },
        }
    }

    /// Takes all entries out of the table.
    pub fn drain(&mut self) -> (entries: Vec<(K, V)>)
        requires
            old(self).wf(),
        ensures
            final(self).wf(),
            final(self)@ == Map::<K::V, V::V>::empty(),
            keys_unique(entries@),
            entries_map(entries@) == old(self)@,
    {
        let mut entries: Vec<(K, V)> = Vec::new();
        std::mem::swap(&mut entries, &mut self.entries);
        entries
    }
}

} // verus!
