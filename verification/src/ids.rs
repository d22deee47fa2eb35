//! Maps whose keys are numbers, read in the order of their keys.

use std::collections::BTreeMap;
use vstd::prelude::*;

verus! {

/// Whether each number is less than the next one.
pub open spec fn ascending(ids: Seq<u64>) -> bool {
    forall|i: int, j: int| 0 <= i < j < ids.len() ==> ids[i] < ids[j]
}

/// Some numbers, in ascending order.
pub open spec fn in_order(ids: Set<u64>) -> Seq<u64> {
    choose|s: Seq<u64>| #[trigger] ascending(s) && s.to_set() == ids
}

/// The values of a map, in the order of their keys.
pub open spec fn values_in_order(m: Map<u64, u64>) -> Seq<u64> {
    in_order(m.dom()).map_values(|id: u64| m[id])
}

proof fn lemma_one_order(a: Seq<u64>, b: Seq<u64>)
    requires
        ascending(a),
        ascending(b),
        a.to_set() == b.to_set(),
    ensures
        a == b,
    decreases a.len(),
{
    if a.len() == 0 {
        if b.len() > 0 {
            assert(b.to_set().contains(b[0]));
            assert(a.contains(b[0]));
        }
    } else {
        assert(a.to_set().contains(a[0]));
        assert(b.contains(a[0]));
        let x = a.last();
        let y = b.last();
        assert(a.contains(x));
        assert(b.contains(y));
        assert(b.to_set().contains(x));
        assert(a.to_set().contains(y));
        assert(x == y) by {
            let i = choose|i: int| 0 <= i < b.len() && b[i] == x;
            let j = choose|j: int| 0 <= j < a.len() && a[j] == y;
            assert(b[i] <= y);
            assert(a[j] <= x);
        }
        let c = a.drop_last();
        let d = b.drop_last();
        assert forall|v: u64| c.to_set().contains(v) == d.to_set().contains(v) by {
            if c.contains(v) {
                let i = choose|i: int| 0 <= i < c.len() && c[i] == v;
                assert(a[i] == v);
                assert(a.to_set().contains(v));
                assert(b.contains(v));
                let j = choose|j: int| 0 <= j < b.len() && b[j] == v;
                assert(a[i] < x);
                assert(d[j] == v);
            }
            if d.contains(v) {
                let i = choose|i: int| 0 <= i < d.len() && d[i] == v;
                assert(b[i] == v);
                assert(b.to_set().contains(v));
                assert(a.contains(v));
                let j = choose|j: int| 0 <= j < a.len() && a[j] == v;
                assert(b[i] < y);
                assert(c[j] == v);
            }
        }
        assert(c.to_set() =~= d.to_set());
        lemma_one_order(c, d);
        assert(a =~= c.push(x));
        assert(b =~= d.push(y));
    }
}

/// There is one ascending order of the numbers in a sequence.
pub proof fn lemma_in_order(s: Seq<u64>)
    requires
        ascending(s),
    ensures
        in_order(s.to_set()) == s,
{
    lemma_one_order(in_order(s.to_set()), s);
}

/// The keys of a map, in ascending order.
pub fn ids_in<V>(m: &BTreeMap<u64, V>) -> (ids: Vec<u64>)
    ensures
        ids@ == in_order(m@.dom()),
        ids@.to_set() == m@.dom(),
        ascending(ids@),
{
    let mut ids: Vec<u64> = Vec::new();
    for entry in all: m.iter()
        invariant
            ids@.len() == all.index(),
            forall|i: int| 0 <= i < ids@.len() ==> #[trigger] ids@[i] == *all.seq()[i].0,
    {
        ids.push(*entry.0);
    }
    proof {
        let entries = vstd::std_specs::iter::IteratorSpec::remaining(&m.iter());
        let keys = entries.map_values(|kv: (&u64, &V)| *kv.0);
        assert(vstd::std_specs::btree::increasing_seq(keys));
        assert(ids@ =~= keys);
        assert forall|i: int, j: int| 0 <= i < j < ids@.len() implies ids@[i] < ids@[j] by {
            assert(vstd::std_specs::cmp::OrdSpec::cmp_spec(&keys[i], &keys[j]) is Less);
        }
        assert forall|k: u64| ids@.to_set().contains(k) == m@.dom().contains(k) by {
            if ids@.contains(k) {
                let i = choose|i: int| 0 <= i < ids@.len() && ids@[i] == k;
                assert(m@.contains_key(*entries[i].0));
            }
            if m@.contains_key(k) {
                assert(entries.contains((&k, &m@[k])));
                let i = choose|i: int| 0 <= i < entries.len() && entries[i] == (&k, &m@[k]);
                assert(ids@[i] == k);
            }
        }
        assert(ids@.to_set() =~= m@.dom());
        lemma_in_order(ids@);
    }
    ids
}

/// The values of a map, in the order of their keys.
pub fn tokens_in(m: &BTreeMap<u64, u64>) -> (tokens: Vec<u64>)
    ensures
        tokens@ == values_in_order(m@),
        tokens@.len() == m@.dom().len(),
        tokens@.to_set() == m@.values(),
{
    let ids = ids_in(m);
    let mut tokens: Vec<u64> = Vec::new();
    let mut i: usize = 0;
    while i < ids.len()
        invariant
            i <= ids@.len(),
            ids@.to_set() == m@.dom(),
            tokens@.len() == i,
            forall|j: int| 0 <= j < i ==> #[trigger] tokens@[j] == m@[ids@[j]],
        decreases ids@.len() - i,
    {
        assert(ids@.to_set().contains(ids@[i as int]));
        if let Some(token) = m.get(&ids[i]) {
            tokens.push(*token);
        }
        i += 1;
    }
    proof {
        assert(tokens@ =~= values_in_order(m@));
        ids@.unique_seq_to_set();
        assert forall|t: u64| tokens@.to_set().contains(t) == m@.values().contains(t) by {
            if tokens@.contains(t) {
                let j = choose|j: int| 0 <= j < tokens@.len() && tokens@[j] == t;
                assert(ids@.to_set().contains(ids@[j]));
                assert(m@.contains_key(ids@[j]));
            }
            if m@.values().contains(t) {
                let id = choose|id: u64| m@.contains_key(id) && m@[id] == t;
                assert(ids@.to_set().contains(id));
                let j = choose|j: int| 0 <= j < ids@.len() && ids@[j] == id;
                assert(tokens@[j] == t);
            }
        }
        assert(tokens@.to_set() =~= m@.values());
    }
    tokens
}

} // verus!
