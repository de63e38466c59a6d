//! Values under text keys.
//!
//! The keys live in a `DashMap` that leads to positions; the values stand in a
//! vector, so that they can be walked in a known order and changed in place.

use std::hash::RandomState;

use dashmap::DashMap;
use vstd::hash_set::StringHashSet;
use vstd::prelude::*;

verus! {

#[verifier::external_type_specification]
#[verifier::external_body]
#[verifier::reject_recursive_types(K)]
#[verifier::reject_recursive_types(V)]
#[verifier::reject_recursive_types(S)]
pub struct ExDashMap<K, V, S>(dashmap::DashMap<K, V, S>);

/// The keys of a map and what they lead to.
pub uninterp spec fn positions(m: DashMap<String, usize, RandomState>) -> Map<Seq<char>, usize>;

/// `DashMap::new`: a map without keys.
#[verifier::external_body]
fn dash_new() -> (m: DashMap<String, usize, RandomState>)
    ensures
        positions(m).is_empty(),
{
    DashMap::new()
}

/// `DashMap::get`: what the key leads to.
#[verifier::external_body]
fn dash_get(m: &DashMap<String, usize, RandomState>, key: &str) -> (r: Option<usize>)
    ensures
        match r {
            Some(i) => positions(*m).contains_key(key@) && i == positions(*m)[key@],
            None => !positions(*m).contains_key(key@),
        },
{
    m.get(key).map(|i| *i)
}

/// `DashMap::insert`: the key leads to `i` from then on, the other keys lead
/// where they led.
#[verifier::external_body]
fn dash_insert(m: &mut DashMap<String, usize, RandomState>, key: String, i: usize)
    ensures
        positions(*final(m)) == positions(*old(m)).insert(key@, i),
{
    m.insert(key, i);
}

/// `DashMap::remove`: the key is gone, the other keys lead where they led.
#[verifier::external_body]
fn dash_remove(m: &mut DashMap<String, usize, RandomState>, key: &str)
    ensures
        positions(*final(m)) == positions(*old(m)).remove(key@),
{
    m.remove(key);
}

/// A set of text keys.
pub struct KeySet {
    keys: StringHashSet,
}

impl View for KeySet {
    type V = Set<Seq<char>>;

    closed spec fn view(&self) -> Set<Seq<char>> {
        self.keys@
    }
}

impl KeySet {
    pub fn new() -> (s: KeySet)
        ensures
            s@ == Set::<Seq<char>>::empty(),
    {
        KeySet { keys: StringHashSet::new() }
    }

    pub fn insert(&mut self, key: &str)
        ensures
            final(self)@ == old(self)@.insert(key@),
    {
        self.keys.insert(key.to_string());
    }

    pub fn contains(&self, key: &str) -> (b: bool)
        ensures
            b == self@.contains(key@),
    {
        self.keys.contains(key)
    }
}

/// Values under text keys.
#[verifier::reject_recursive_types(V)]
pub struct KeyedStore<V> {
    index: DashMap<String, usize, RandomState>,
    slots: Vec<(String, V)>,
}

impl<V> View for KeyedStore<V> {
    type V = Map<Seq<char>, V>;

    closed spec fn view(&self) -> Map<Seq<char>, V> {
        Map::new(
            |k: Seq<char>| positions(self.index).contains_key(k),
            |k: Seq<char>| self.slots@[positions(self.index)[k] as int].1,
        )
    }
}

impl<V> KeyedStore<V> {
    /// Every key leads to the slot that holds it, and every slot's key is
    /// known.
    pub closed spec fn wf(self) -> bool {
        &&& forall|k: Seq<char>| #[trigger]
            positions(self.index).contains_key(k) ==> positions(self.index)[k] < self.slots@.len()
                && self.slots@[positions(self.index)[k] as int].0@ == k
        &&& forall|i: int|
            #![trigger self.slots@[i]]
            0 <= i < self.slots@.len() ==> positions(self.index).contains_key(self.slots@[i].0@)
                && positions(self.index)[self.slots@[i].0@] == i
    }

    /// The keys in the order in which they are walked.
    pub closed spec fn order(self) -> Seq<Seq<char>> {
        self.slots@.map_values(|s: (String, V)| s.0@)
    }

    /// Each key is walked exactly once.
    pub proof fn lemma_order(self)
        requires
            self.wf(),
        ensures
            forall|i: int|
                #![trigger self.order()[i]]
                0 <= i < self.order().len() ==> self@.contains_key(self.order()[i]),
            forall|i: int, j: int|
                #![trigger self.order()[i], self.order()[j]]
                0 <= i < j < self.order().len() ==> self.order()[i] != self.order()[j],
            forall|k: Seq<char>| #[trigger]
                self@.contains_key(k) ==> exists|i: int|
                    0 <= i < self.order().len() && #[trigger] self.order()[i] == k,
    {
        assert forall|k: Seq<char>| #[trigger] self@.contains_key(k) implies exists|i: int|
            0 <= i < self.order().len() && #[trigger] self.order()[i] == k by {
            let i = positions(self.index)[k] as int;
            assert(self.order()[i] == k);
        }
        assert forall|i: int, j: int|
            #![trigger self.order()[i], self.order()[j]]
            0 <= i < j < self.order().len() implies self.order()[i] != self.order()[j] by {
            assert(self.slots@[i].0@ == self.order()[i]);
            assert(self.slots@[j].0@ == self.order()[j]);
        }
        assert forall|i: int| 0 <= i < self.order().len() implies self@.contains_key(
            #[trigger] self.order()[i],
        ) by {
            assert(self.slots@[i].0@ == self.order()[i]);
        }
    }

    /// A store without values.
    pub fn new() -> (s: Self)
        ensures
            s.wf(),
            s@ == Map::<Seq<char>, V>::empty(),
    {
        let s = KeyedStore { index: dash_new(), slots: Vec::new() };
        assert(s@ =~= Map::<Seq<char>, V>::empty());
        s
    }

    /// How many values there are.
    pub fn len(&self) -> (n: usize)
        ensures
            n == self.order().len(),
    {
        self.slots.len()
    }

    /// The key at position `i` of the walk.
    pub fn key_at(&self, i: usize) -> (k: &str)
        requires
            i < self.order().len(),
        ensures
            k@ == self.order()[i as int],
    {
        self.slots[i].0.as_str()
    }

    /// The value at position `i` of the walk.
    pub fn value_at(&self, i: usize) -> (v: &V)
        requires
            self.wf(),
            i < self.order().len(),
        ensures
            *v == self@[self.order()[i as int]],
    {
        proof {
            assert(self.order()[i as int] == self.slots@[i as int].0@);
        }
        &self.slots[i].1
    }

    pub fn get(&self, key: &str) -> (r: Option<&V>)
        requires
            self.wf(),
        ensures
            match r {
                Some(v) => self@.contains_key(key@) && *v == self@[key@],
                None => !self@.contains_key(key@),
            },
    {
        match dash_get(&self.index, key) {
            Some(i) => Some(&self.slots[i].1),
            None => None,
        }
    }

    /// The value under a key, to be changed in place.
    pub fn get_mut(&mut self, key: &str) -> (r: Option<&mut V>)
        requires
            old(self).wf(),
        ensures
            final(self).wf(),
            match r {
                Some(v) => old(self)@.contains_key(key@) && *v == old(self)@[key@]
                    && final(self)@ == old(self)@.insert(key@, *final(v)),
                None => !old(self)@.contains_key(key@) && final(self)@ == old(self)@,
            },
    {
        match dash_get(&self.index, key) {
            Some(i) => Some(&mut self.slots[i].1),
            None => None,
        }
    }

    /// Puts `v` under `key`, in place of what was there.
    pub fn insert(&mut self, key: &str, v: V)
        requires
            old(self).wf(),
        ensures
            final(self).wf(),
            final(self)@ == old(self)@.insert(key@, v),
    {
        match dash_get(&self.index, key) {
            Some(i) => {
                self.slots[i].1 = v;
            },
            None => {
                let n = self.slots.len();
                self.slots.push((key.to_string(), v));
                dash_insert(&mut self.index, key.to_string(), n);
            },
        }
        assert(self@ =~= old(self)@.insert(key@, v));
    }

    /// Takes away the value at position `i` of the walk; the last one takes
    /// its place.
    fn remove_at(&mut self, i: usize)
        requires
            old(self).wf(),
            i < old(self).order().len(),
        ensures
            final(self).wf(),
            final(self)@ == old(self)@.remove(old(self).order()[i as int]),
            final(self).order().len() == old(self).order().len() - 1,
            forall|j: int| 0 <= j < i ==> final(self).order()[j] == old(self).order()[j],
    {
        let last = self.slots.len() - 1;
        let ghost before = self.slots@;
        let ghost gone = before[i as int].0@;
        assert(gone == self.order()[i as int]);
        let key = self.slots[i].0.clone();
        dash_remove(&mut self.index, key.as_str());
        if i != last {
            let moved = self.slots[last].0.clone();
            assert(before[last as int].0@ != gone);
            dash_insert(&mut self.index, moved, i);
        }
        self.slots.swap_remove(i);
        assert forall|j: int|
            #![trigger self.slots@[j]]
            0 <= j < self.slots@.len() implies positions(self.index).contains_key(
            self.slots@[j].0@,
        ) && positions(self.index)[self.slots@[j].0@] == j by {
            if j == i {
                assert(self.slots@[j] == before[last as int]);
            } else {
                assert(self.slots@[j] == before[j]);
                assert(before[j].0@ != gone);
            }
        }
        assert(self@ =~= old(self)@.remove(gone));
        assert forall|j: int| 0 <= j < i implies self.order()[j] == old(self).order()[j] by {
            assert(self.slots@[j] == before[j]);
        }
    }

    /// Takes away the value under `key`, if there is one.
    pub fn remove(&mut self, key: &str)
        requires
            old(self).wf(),
        ensures
            final(self).wf(),
            final(self)@ == old(self)@.remove(key@),
    {
        match dash_get(&self.index, key) {
            Some(i) => {
                assert(self.order()[i as int] == key@);
                self.remove_at(i);
            },
            None => {
                assert(self@ =~= self@.remove(key@));
            },
        }
    }

    /// Takes away every value whose key is not among `keys`.
    pub fn retain(&mut self, keys: &KeySet)
        requires
            old(self).wf(),
        ensures
            final(self).wf(),
            final(self)@ == old(self)@.restrict(keys@),
    {
        let mut i: usize = 0;
        while i < self.slots.len()
            invariant
                self.wf(),
                i <= self.order().len(),
                self@.restrict(keys@) == old(self)@.restrict(keys@),
                forall|j: int| 0 <= j < i ==> keys@.contains(#[trigger] self.order()[j]),
            decreases self.order().len() - i,
        {
            if keys.contains(self.key_at(i)) {
                i += 1;
            } else {
                let ghost before = *self;
                self.remove_at(i);
                assert(self@.restrict(keys@) =~= before@.restrict(keys@));
            }
        }
        proof {
            self.lemma_order();
        }
        assert(self@ =~= self@.restrict(keys@));
    }
}

} // verus!
