//! Consecutive allocation of indices to types.

use crate::collections::{
    type_id_of, type_index_entries, type_index_map_get, type_index_map_insert, type_index_map_len,
    type_index_map_new,
};
use std::any::TypeId;
use std::hash::Hash;
use std::marker::PhantomData;
use vstd::prelude::*;
use vstd::std_specs::convert::FromSpec;

verus! {

/// Used to create consecutive `usize` mappings for a given type.
///
/// The first key asked for is given index 0, the next new key index 1, and
/// so on; a key asked for again gets the index it was given before.
#[verifier::reject_recursive_types(K)]
pub struct Mappings<K, V> where K: Hash + PartialEq + Eq, V: Copy + From<usize> {
    counter: usize,
    mappings: hashbrown::HashMap<K, usize>,
    _value: PhantomData<V>,
}

/// The index a key receives when it is asked for in a mapping whose entries are
/// `m` and which has given out `counter` indices.
pub open spec fn alloc_index(m: Map<TypeId, usize>, counter: nat, key: TypeId) -> nat {
    if m.contains_key(key) {
        m[key] as nat
    } else {
        counter
    }
}

/// The entries after `key` has been asked for.
pub open spec fn alloc_entries(m: Map<TypeId, usize>, counter: nat, key: TypeId) -> Map<TypeId, usize> {
    m.insert(key, alloc_index(m, counter, key) as usize)
}

/// The number of indices given out after `key` has been asked for.
pub open spec fn alloc_counter(m: Map<TypeId, usize>, counter: nat, key: TypeId) -> nat {
    if m.contains_key(key) {
        counter
    } else {
        counter + 1
    }
}

/// The entries and counter describe consecutive allocation: every index in
/// use is below `counter`, and no index is used by two keys.
pub open spec fn consecutive(m: Map<TypeId, usize>, counter: nat) -> bool {
    &&& m.dom().finite()
    &&& forall|k: TypeId| #[trigger] m.contains_key(k) ==> m[k] < counter
    &&& forall|k1: TypeId, k2: TypeId|
        #![trigger m[k1], m[k2]]
        m.contains_key(k1) && m.contains_key(k2) && k1 != k2 ==> m[k1] != m[k2]
}

impl<V: Copy + From<usize>> Mappings<TypeId, V> {
    /// The index given to each key so far.
    pub closed spec fn view(&self) -> Map<TypeId, usize> {
        type_index_entries(self.mappings)
    }

    /// The number of indices given out so far.
    pub closed spec fn allocated(&self) -> nat {
        self.counter as nat
    }

    /// Well-formedness: allocation has been consecutive.
    pub closed spec fn wf(&self) -> bool {
        consecutive(self@, self.allocated())
    }

    /// Every index given out went to a key: the number of indices equals the
    /// number of entries. This holds of a mapping used only through
    /// `get_or_alloc`, and no longer once `allocate` gives out an index.
    pub open spec fn only_keyed(&self) -> bool {
        self.allocated() == self@.len()
    }

    pub fn new() -> (r: Self)
        ensures
            r.wf(),
            r.only_keyed(),
            r@ == Map::<TypeId, usize>::empty(),
            r.allocated() == 0,
    {
        let r = Mappings { counter: 0, mappings: type_index_map_new(), _value: PhantomData };
        proof {
            assert(r@.dom() =~= Set::<TypeId>::empty());
        }
        r
    }

    /// Returns the value for `key`, allocating the next index for it if it
    /// has none yet.
    pub fn get_or_alloc(&mut self, key: TypeId) -> (r: V)
        requires
            old(self).wf(),
            old(self)@.contains_key(key) || old(self).allocated() < usize::MAX,
        ensures
            final(self).wf(),
            final(self)@ == alloc_entries(old(self)@, old(self).allocated(), key),
            final(self).allocated() == alloc_counter(old(self)@, old(self).allocated(), key),
            old(self).only_keyed() ==> final(self).only_keyed(),
            call_ensures(V::from, (alloc_index(old(self)@, old(self).allocated(), key) as usize,), r),
            <V as FromSpec<usize>>::obeys_from_spec() ==> r == <V as FromSpec<usize>>::from_spec(
                alloc_index(old(self)@, old(self).allocated(), key) as usize,
            ),
    {
        proof {
            lemma_alloc_keeps_consecutive(self@, self.allocated(), key);
            if self.only_keyed() {
                lemma_keyed_index(self@, self.allocated(), key);
            }
        }
        match type_index_map_get(&self.mappings, &key) {
            Some(value) => {
                proof {
                    assert(self@.insert(key, value) =~= self@);
                }
                V::from(value)
            },
            None => {
                let index = self.counter;
                type_index_map_insert(&mut self.mappings, key, index);
                self.counter = self.counter + 1;
                V::from(index)
            },
        }
    }

    /// Allocates the next index without a key.
    pub fn allocate(&mut self) -> (r: V)
        requires
            old(self).wf(),
            old(self).allocated() < usize::MAX,
        ensures
            final(self).wf(),
            final(self)@ == old(self)@,
            final(self).allocated() == old(self).allocated() + 1,
            call_ensures(V::from, (old(self).allocated() as usize,), r),
            <V as FromSpec<usize>>::obeys_from_spec() ==> r == <V as FromSpec<usize>>::from_spec(
                old(self).allocated() as usize,
            ),
    {
        let index = self.counter;
        self.counter = self.counter + 1;
        V::from(index)
    }

    /// The number of keys given an index.
    pub fn len(&self) -> (r: usize)
        requires
            self.wf(),
        ensures
            r == self@.len(),
    {
        type_index_map_len(&self.mappings)
    }

    /// The number of indices given out so far, with or without a key.
    pub fn allocated_count(&self) -> (r: usize)
        ensures
            r == self.allocated(),
    {
        self.counter
    }
}

impl<V: Copy + From<usize>> Default for Mappings<TypeId, V> {
    fn default() -> (r: Self)
        ensures
            r.wf(),
            r.only_keyed(),
            r@ == Map::<TypeId, usize>::empty(),
            r.allocated() == 0,
    {
        Self::new()
    }
}

/// Asking for a key keeps allocation consecutive.
pub proof fn lemma_alloc_keeps_consecutive(m: Map<TypeId, usize>, counter: nat, key: TypeId)
    requires
        consecutive(m, counter),
        m.contains_key(key) || counter < usize::MAX,
    ensures
        consecutive(alloc_entries(m, counter, key), alloc_counter(m, counter, key)),
{
    let m2 = alloc_entries(m, counter, key);
    if m.contains_key(key) {
        assert(m2 =~= m);
    } else {
        assert(m2.dom() =~= m.dom().insert(key));
        assert forall|k: TypeId| #[trigger] m2.contains_key(k) implies m2[k] < counter + 1 by {
            if k != key {
                assert(m.contains_key(k));
            }
        }
        assert forall|k1: TypeId, k2: TypeId|
            m2.contains_key(k1) && m2.contains_key(k2) && k1 != k2 implies m2[k1] != m2[k2] by {
            if k1 == key {
                assert(m.contains_key(k2));
            } else if k2 == key {
                assert(m.contains_key(k1));
            }
        }
    }
}

/// In a mapping whose indices all went to keys, a key asked for gets the
/// index it was given before, or else the number of keys so far; and the
/// indices still all go to keys afterwards.
pub proof fn lemma_keyed_index(m: Map<TypeId, usize>, counter: nat, key: TypeId)
    requires
        consecutive(m, counter),
        counter == m.len(),
    ensures
        alloc_index(m, counter, key) == if m.contains_key(key) {
            m[key] as nat
        } else {
            m.len()
        },
        alloc_counter(m, counter, key) == alloc_entries(m, counter, key).len(),
{
    let m2 = alloc_entries(m, counter, key);
    if m.contains_key(key) {
        assert(m2 =~= m);
    } else {
        assert(m2.dom() =~= m.dom().insert(key));
    }
}

/// Asking again for a key gives the index it received before, and changes
/// nothing.
pub proof fn lemma_alloc_is_stable(m: Map<TypeId, usize>, counter: nat, key: TypeId)
    requires
        consecutive(m, counter),
        m.contains_key(key) || counter < usize::MAX,
    ensures
        ({
            let m2 = alloc_entries(m, counter, key);
            let c2 = alloc_counter(m, counter, key);
            &&& alloc_index(m2, c2, key) == alloc_index(m, counter, key)
            &&& alloc_entries(m2, c2, key) == m2
            &&& alloc_counter(m2, c2, key) == c2
        }),
{
    let m2 = alloc_entries(m, counter, key);
    assert(m2.insert(key, m2[key]) =~= m2);
}

/// Two different keys, asked for one after the other, receive different
/// indices.
pub proof fn lemma_alloc_distinct(m: Map<TypeId, usize>, counter: nat, k1: TypeId, k2: TypeId)
    requires
        consecutive(m, counter),
        counter + 2 <= usize::MAX,
        k1 != k2,
    ensures
        ({
            let m2 = alloc_entries(m, counter, k1);
            let c2 = alloc_counter(m, counter, k1);
            alloc_index(m, counter, k1) != alloc_index(m2, c2, k2)
        }),
{
    lemma_alloc_keeps_consecutive(m, counter, k1);
    let m2 = alloc_entries(m, counter, k1);
    let c2 = alloc_counter(m, counter, k1);
    if m2.contains_key(k2) {
        assert(m2.contains_key(k1));
        assert(m2[k1] != m2[k2]);
    }
}

/// Returns the index allocated in `mappings` for the type `T`.
pub(crate) fn index_for_type<T: ?Sized + 'static, V: Copy + From<usize>>(mappings: &mut Mappings<TypeId, V>) -> (r: V)
    requires
        old(mappings).wf(),
        old(mappings).allocated() < usize::MAX,
    ensures
        final(mappings).wf(),
        old(mappings).only_keyed() ==> final(mappings).only_keyed(),
        exists|key: TypeId|
            {
                &&& final(mappings)@ == alloc_entries(old(mappings)@, old(mappings).allocated(), key)
                &&& final(mappings).allocated() == alloc_counter(old(mappings)@, old(mappings).allocated(), key)
                &&& (<V as FromSpec<usize>>::obeys_from_spec() ==> r == <V as FromSpec<usize>>::from_spec(
                    alloc_index(old(mappings)@, old(mappings).allocated(), key) as usize,
                ))
            },
{
    let key = type_id_of::<T>();
    mappings.get_or_alloc(key)
}

} // verus!
