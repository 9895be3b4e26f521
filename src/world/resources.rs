//! Resources: one value per resource type.
use vstd::prelude::*;

use super::World;
use crate::component::{opt_deref, recover_opt, Component};
use crate::keyed::{has_key, lemma_lookup, lemma_push, lemma_update, unique_keys};

verus! {

impl<V, S> World<V, S> {
    /// The index of the resource with key `k`.
    fn find_resource(&self, k: u64) -> (r: Option<usize>)
        ensures
            match r {
                Some(i) => i < self.resources@.len() && self.resources@[i as int].0 == k,
                None => !has_key(self.resources@, k),
            },
    {
        let mut i: usize = 0;
        while i < self.resources.len()
            invariant
                i <= self.resources@.len(),
                forall|j: int| 0 <= j < i ==> self.resources@[j].0 != k,
            decreases self.resources@.len() - i,
        {
            if self.resources[i].0 == k {
                return Some(i);
            }
            i += 1;
        }
        None
    }

    /// Any world that differs from this one only in the value of the resource
    /// at index `i` is well formed and has that value under the resource's key.
    proof fn lemma_resource_write(self, i: int)
        requires
            self.wf(),
            0 <= i < self.resources@.len(),
        ensures
            forall|w2: World<V, S>|
                #![trigger w2@]
                #![trigger w2.wf()]
                w2.columns == self.columns && w2.schedules == self.schedules
                    && w2.resources@.len() == self.resources@.len() && w2.resources@[i].0
                    == self.resources@[i].0 && (forall|j: int|
                    0 <= j < self.resources@.len() && j != i ==> #[trigger] w2.resources@[j]
                        == self.resources@[j]) ==> w2.wf() && w2@ == self@.with_resource(
                    self.resources@[i].0,
                    w2.resources@[i].1,
                ),
    {
        assert forall|w2: World<V, S>|
            #![trigger w2@]
            #![trigger w2.wf()]
            w2.columns == self.columns && w2.schedules == self.schedules
                && w2.resources@.len() == self.resources@.len() && w2.resources@[i].0
                == self.resources@[i].0 && (forall|j: int|
                0 <= j < self.resources@.len() && j != i ==> #[trigger] w2.resources@[j]
                    == self.resources@[j]) implies w2.wf() && w2@ == self@.with_resource(
            self.resources@[i].0,
            w2.resources@[i].1,
        ) by {
            let es = self.resources@;
            lemma_update(es, i, w2.resources@[i].1);
            assert(w2.resources@ =~= es.update(i, (es[i].0, w2.resources@[i].1)));
        }
    }

    /// Sets the resource of type `T` to `resource`, replacing any earlier value.
    pub fn insert_resource<T: Component<V>>(&mut self, resource: T)
        requires
            old(self).wf(),
        ensures
            final(self).wf(),
            final(self)@ == old(self)@.with_resource(T::type_key(), resource.erase()),
    {
        let k = T::key();
        let v = resource.into_value();
        let ghost es = self.resources@;
        match self.find_resource(k) {
            Some(i) => {
                self.resources.set(i, (k, v));
                proof {
                    lemma_update(es, i as int, v);
                    assert(self.resources@ =~= es.update(i as int, (k, v)));
                }
            },
            None => {
                self.resources.push((k, v));
                proof {
                    lemma_push(es, k, v);
                }
            },
        }
    }

    /// Sets the resource of type `T` to `T`'s default value, replacing any
    /// earlier value.
    pub fn init_resource<T: Component<V> + Default>(&mut self)
        requires
            old(self).wf(),
        ensures
            final(self).wf(),
            exists|d: T|
                call_ensures(T::default, (), d) && final(self)@ == old(self)@.with_resource(
                    T::type_key(),
                    d.erase(),
                ),
    {
        let d = T::default();
        self.insert_resource(d);
    }

    /// The resource of type `T`, if one is set and holds a `T`.
    pub fn get_resource<T: Component<V>>(&self) -> (r: Option<&T>)
        requires
            self.wf(),
        ensures
            opt_deref(r) == recover_opt::<V, T>(self@.resource_value(T::type_key())),
    {
        let k = T::key();
        match self.find_resource(k) {
            Some(i) => {
                proof {
                    lemma_lookup(self.resources@, i as int);
                }
                <dyn Component<V>>::downcast_ref::<T>(&self.resources[i].1)
            },
            None => None,
        }
    }

    /// Mutable form of `get_resource`: what is written through the result is
    /// stored back, erased, as the resource.
    pub fn get_resource_mut<T: Component<V>>(&mut self) -> (r: Option<&mut T>)
        requires
            old(self).wf(),
        ensures
            final(self).wf(),
            match r {
                Some(c) => recover_opt::<V, T>(old(self)@.resource_value(T::type_key())) == Some(
                    *c,
                ) && final(self)@ == old(self)@.with_resource(T::type_key(), (*final(c)).erase()),
                None => recover_opt::<V, T>(old(self)@.resource_value(T::type_key())) is None
                    && final(self)@ == old(self)@,
            },
    {
        let k = T::key();
        match self.find_resource(k) {
            Some(i) => {
                proof {
                    lemma_lookup(self.resources@, i as int);
                    self.lemma_resource_write(i as int);
                }
                downcast_entry::<V, T>(&mut self.resources[i])
            },
            None => None,
        }
    }

    /// The resource of type `T`; it must be set and hold a `T`.
    pub fn resource<T: Component<V>>(&self) -> (r: &T)
        requires
            self.wf(),
            recover_opt::<V, T>(self@.resource_value(T::type_key())) is Some,
        ensures
            recover_opt::<V, T>(self@.resource_value(T::type_key())) == Some(*r),
    {
        self.get_resource::<T>().unwrap()
    }

    /// Mutable form of `resource`.
    pub fn resource_mut<T: Component<V>>(&mut self) -> (r: &mut T)
        requires
            old(self).wf(),
            recover_opt::<V, T>(old(self)@.resource_value(T::type_key())) is Some,
        ensures
            final(self).wf(),
            recover_opt::<V, T>(old(self)@.resource_value(T::type_key())) == Some(*r),
            final(self)@ == old(self)@.with_resource(T::type_key(), (*final(r)).erase()),
    {
        self.get_resource_mut::<T>().unwrap()
    }
}

fn downcast_entry<V, T: Component<V>>(pair: &mut (u64, V)) -> (r: Option<&mut T>)
    ensures
        final(pair).0 == old(pair).0,
        match r {
            Some(c) => T::recover(old(pair).1) == Some(*c) && final(pair).1 == (*final(c)).erase(),
            None => T::recover(old(pair).1) is None && *final(pair) == *old(pair),
        },
{
    <dyn Component<V>>::downcast_mut::<T>(&mut pair.1)
}

impl<V, S> World<V, S> {
    /// The keys of the resources that are set, each once.
    pub fn resource_keys(&self) -> (r: Vec<u64>)
        requires
            self.wf(),
        ensures
            r@.no_duplicates(),
            forall|k: u64| r@.contains(k) <==> self@.resources.contains_key(k),
    {
        let ghost e = self.resources@;
        let mut r: Vec<u64> = Vec::new();
        let mut i: usize = 0;
        while i < self.resources.len()
            invariant
                i <= self.resources@.len(),
                e == self.resources@,
                unique_keys(e),
                r@.len() == i,
                forall|j: int| 0 <= j < i ==> #[trigger] r@[j] == e[j].0,
            decreases self.resources@.len() - i,
        {
            r.push(self.resources[i].0);
            i += 1;
        }
        proof {
            assert forall|k: u64| r@.contains(k) <==> self@.resources.contains_key(k) by {
                if r@.contains(k) {
                    let j = choose|j: int| 0 <= j < r@.len() && r@[j] == k;
                    assert(e[j].0 == k);
                }
                if has_key(e, k) {
                    let j = choose|j: int| 0 <= j < e.len() && #[trigger] e[j].0 == k;
                    assert(r@[j] == k);
                }
            }
            assert forall|a: int, b: int|
                0 <= a < r@.len() && 0 <= b < r@.len() && a != b implies r@[a] != r@[b] by {
                assert(r@[a] == e[a].0 && r@[b] == e[b].0);
            }
        }
        r
    }

    /// The erased value of the resource with key `k`, if it is set.
    pub fn resource_value(&self, k: u64) -> (r: Option<&V>)
        requires
            self.wf(),
        ensures
            opt_deref(r) == self@.resource_value(k),
    {
        match self.find_resource(k) {
            Some(i) => {
                proof {
                    lemma_lookup(self.resources@, i as int);
                }
                Some(&self.resources[i].1)
            },
            None => None,
        }
    }
}

} // verus!
