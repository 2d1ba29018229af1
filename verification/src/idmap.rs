//! Ordered maps keyed by plain integers.

use std::collections::BTreeMap;
use vstd::prelude::*;
use vstd::std_specs::btree::{group_btree_axioms, increasing_seq, key_obeys_cmp_spec};
use vstd::std_specs::cmp::OrdSpec;
use vstd::std_specs::iter::IteratorSpec;

verus! {

/// An integer that can key a map.
pub trait IdKey: Ord + Copy {
    spec fn before(self, other: Self) -> bool;

    proof fn lemma_ordered()
        ensures
            vstd::laws_cmp::obeys_cmp::<Self>(),
            key_obeys_cmp_spec::<Self>(),
    ;

    proof fn lemma_before_irreflexive(k: Self)
        ensures
            !k.before(k),
    ;

    proof fn lemma_increasing(s: Seq<&Self>)
        requires
            increasing_seq(s),
        ensures
            forall|i: int, j: int|
                #![trigger s[i], s[j]]
                0 <= i < j < s.len() ==> s[i].before(*s[j]),
    ;
}

impl IdKey for u64 {
    open spec fn before(self, other: Self) -> bool {
        self < other
    }

    proof fn lemma_ordered() {
        broadcast use {group_btree_axioms, vstd::laws_cmp::group_laws_cmp};

    }

    proof fn lemma_before_irreflexive(k: Self) {
    }

    proof fn lemma_increasing(s: Seq<&Self>) {
        broadcast use {group_btree_axioms, vstd::laws_cmp::group_laws_cmp};

        assert(vstd::laws_cmp::obeys_cmp::<u64>());
        assert(vstd::laws_cmp::obeys_cmp::<&u64>());
        assert forall|i: int, j: int| #![trigger s[i], s[j]] 0 <= i < j < s.len() implies (
        s[i]).before(*s[j]) by {
            assert(OrdSpec::cmp_spec(&s[i], &s[j]) is Less);
        }
    }
}

impl IdKey for u128 {
    open spec fn before(self, other: Self) -> bool {
        self < other
    }

    proof fn lemma_ordered() {
        broadcast use {group_btree_axioms, vstd::laws_cmp::group_laws_cmp};

    }

    proof fn lemma_before_irreflexive(k: Self) {
    }

    proof fn lemma_increasing(s: Seq<&Self>) {
        broadcast use {group_btree_axioms, vstd::laws_cmp::group_laws_cmp};

        assert(vstd::laws_cmp::obeys_cmp::<u128>());
        assert(vstd::laws_cmp::obeys_cmp::<&u128>());
        assert forall|i: int, j: int| #![trigger s[i], s[j]] 0 <= i < j < s.len() implies (
        s[i]).before(*s[j]) by {
            assert(OrdSpec::cmp_spec(&s[i], &s[j]) is Less);
        }
    }
}

/// A map from integers to values.
pub struct IdMap<K: IdKey, V: Copy> {
    entries: BTreeMap<K, V>,
}

impl<K: IdKey, V: Copy> View for IdMap<K, V> {
    type V = Map<K, V>;

    closed spec fn view(&self) -> Map<K, V> {
        self.entries@
    }
}

/// What a map holds under a key.
pub open spec fn lookup<K, V>(m: Map<K, V>, k: K) -> Option<V> {
    if m.contains_key(k) {
        Some(m[k])
    } else {
        None
    }
}

/// `s` lists a map: every binding once, by ascending key.
pub open spec fn lists_map<K: IdKey, V>(s: Seq<(K, V)>, m: Map<K, V>) -> bool {
    &&& forall|i: int, j: int|
        #![trigger s[i], s[j]]
        0 <= i < j < s.len() ==> s[i].0.before(s[j].0)
    &&& forall|i: int|
        0 <= i < s.len() ==> m.contains_key((#[trigger] s[i]).0) && m[s[i].0] == s[i].1
    &&& forall|k: K| #[trigger]
        m.contains_key(k) ==> exists|i: int| 0 <= i < s.len() && (#[trigger] s[i]).0 == k
}

/// A listing has as many items as the map has bindings.
pub proof fn lemma_lists_len<K: IdKey, V>(s: Seq<(K, V)>, m: Map<K, V>)
    requires
        lists_map(s, m),
    ensures
        m.dom().finite(),
        m.len() == s.len(),
{
    let keys = Seq::new(s.len(), |i: int| s[i].0);
    assert(keys.no_duplicates()) by {
        assert forall|i: int, j: int| 0 <= i < keys.len() && 0 <= j < keys.len() && i != j implies keys[i]
            != keys[j] by {
            if i < j {
                assert(s[i].0.before(s[j].0));
                K::lemma_before_irreflexive(s[i].0);
            } else {
                assert(s[j].0.before(s[i].0));
                K::lemma_before_irreflexive(s[i].0);
            }
        }
    }
    keys.unique_seq_to_set();
    assert(keys.to_set() =~= m.dom()) by {
        assert forall|k: K| keys.to_set().contains(k) <==> m.dom().contains(k) by {
            if m.dom().contains(k) {
                let i = choose|i: int| 0 <= i < s.len() && (#[trigger] s[i]).0 == k;
                assert(keys[i] == k);
            }
            if keys.to_set().contains(k) {
                let i = choose|i: int| 0 <= i < keys.len() && keys[i] == k;
                assert(m.contains_key(s[i].0));
            }
        }
    }
}

impl<K: IdKey, V: Copy> IdMap<K, V> {
    pub fn new() -> (r: Self)
        ensures
            r@ == Map::<K, V>::empty(),
    {
        IdMap { entries: BTreeMap::new() }
    }

    pub fn get(&self, k: K) -> (r: Option<V>)
        ensures
            r == lookup(self@, k),
    {
        broadcast use group_btree_axioms;

        proof {
            K::lemma_ordered();
        }
        match self.entries.get(&k) {
            Some(v) => Some(*v),
            None => None,
        }
    }

    /// The value under a key, by reference.
    pub fn find(&self, k: K) -> (r: Option<&V>)
        ensures
            match r {
                Some(v) => lookup(self@, k) == Some(*v),
                None => lookup(self@, k) is None,
            },
    {
        broadcast use group_btree_axioms;

        proof {
            K::lemma_ordered();
        }
        self.entries.get(&k)
    }

    pub fn contains(&self, k: K) -> (r: bool)
        ensures
            r == self@.contains_key(k),
    {
        self.get(k).is_some()
    }

    pub fn insert(&mut self, k: K, v: V)
        ensures
            final(self)@ == old(self)@.insert(k, v),
    {
        broadcast use group_btree_axioms;

        proof {
            K::lemma_ordered();
        }
        self.entries.insert(k, v);
    }

    pub fn len(&self) -> (r: usize)
        ensures
            r == self@.len(),
    {
        broadcast use group_btree_axioms;

        proof {
            K::lemma_ordered();
        }
        self.entries.len()
    }

    pub fn is_empty(&self) -> (r: bool)
        ensures
            r == (self@.len() == 0),
    {
        self.len() == 0
    }

    /// Every binding, by ascending key.
    pub fn to_list(&self) -> (r: Vec<(K, V)>)
        ensures
            lists_map(r@, self@),
    {
        broadcast use group_btree_axioms;

        proof {
            K::lemma_ordered();
        }
        let mut out: Vec<(K, V)> = Vec::new();
        let ghost m = self@;
        for k in it: self.entries.keys()
            invariant
                m == self@,
                key_obeys_cmp_spec::<K>(),
                it.seq() == vstd::std_specs::btree::spec_keys_iter(&self.entries).remaining(),
                it.seq().unref().to_set() == m.dom(),
                increasing_seq(it.seq()),
                out@.len() == it.index(),
                forall|i: int|
                    0 <= i < out@.len() ==> (#[trigger] out@[i]).0 == *it.seq()[i] && m.contains_key(
                        out@[i].0,
                    ) && m[out@[i].0] == out@[i].1,
        {
            proof {
                assert(it.seq().unref()[it.index()] == *k);
                assert(it.seq().unref().to_set().contains(*k));
                assert(m.dom().contains(*k));
            }
            match self.get(*k) {
                Some(v) => {
                    out.push((*k, v));
                },
                None => {},
            }
        }
        proof {
            let keys = vstd::std_specs::btree::spec_keys_iter(&self.entries).remaining();
            K::lemma_increasing(keys);
            assert forall|k: K| #[trigger] m.contains_key(k) implies exists|i: int|
                0 <= i < out@.len() && (#[trigger] out@[i]).0 == k by {
                assert(keys.unref().to_set().contains(k));
                let i = choose|i: int| 0 <= i < keys.unref().len() && keys.unref()[i] == k;
                assert(out@[i].0 == k);
            }
        }
        out
    }
}

} // verus!
