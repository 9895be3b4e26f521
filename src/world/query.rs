//! Queries over one component type, and access to the single value of a type.
use vstd::prelude::*;

use super::{downcast_opt, downcast_slot, entry_mut_view, entry_view, World};
use crate::component::{matches_of, opt_deref, recover_opt, Component};
use crate::entity::Entity;
use crate::keyed::lemma_lookup;

verus! {

impl<V, S> World<V, S> {
    /// Every row whose slot in `T`'s column holds a `T`, with that value, in
    /// ascending row order.
    pub fn query<T: Component<V>>(&self) -> (r: Vec<(Entity, &T)>)
        requires
            self.wf(),
        ensures
            r@.map_values(|p: (Entity, &T)| entry_view(p)) == self@.query_of::<T>(),
    {
        let k = T::key();
        let mut out: Vec<(Entity, &T)> = Vec::new();
        match self.find_column(k) {
            Some(ci) => {
                proof {
                    lemma_lookup(self.column_entries(), ci as int);
                }
                let col = &self.columns[ci].1;
                let mut i: usize = 0;
                while i < col.len()
                    invariant
                        i <= col@.len(),
                        out@.map_values(|p: (Entity, &T)| entry_view(p)) == matches_of::<V, T>(
                            col@.subrange(0, i as int),
                        ),
                    decreases col@.len() - i,
                {
                    let ghost prefix = col@.subrange(0, i as int + 1);
                    assert(prefix.drop_last() =~= col@.subrange(0, i as int));
                    match &col[i] {
                        Some(v) => match <dyn Component<V>>::downcast_ref::<T>(v) {
                            Some(t) => {
                                out.push((Entity(i), t));
                            },
                            None => {},
                        },
                        None => {},
                    }
                    i += 1;
                    assert(out@.map_values(|p: (Entity, &T)| entry_view(p)) =~= matches_of::<V, T>(
                        prefix,
                    ));
                }
                assert(col@.subrange(0, col@.len() as int) =~= col@);
            },
            None => {
                assert(out@.map_values(|p: (Entity, &T)| entry_view(p)) =~= Seq::empty());
            },
        }
        out
    }

    /// The value of `T` when exactly one row exists in `T`'s column and it
    /// holds a `T`. With zero rows or two or more, `None`, however many of
    /// them hold a `T`.
    pub fn get_single<T: Component<V>>(&self) -> (r: Option<&T>)
        requires
            self.wf(),
        ensures
            opt_deref(r) == self@.single_of::<T>(),
    {
        let k = T::key();
        match self.find_column(k) {
            Some(i) => {
                proof {
                    lemma_lookup(self.column_entries(), i as int);
                }
                let col = &self.columns[i].1;
                if col.len() != 1 {
                    None
                } else {
                    match &col[0] {
                        Some(v) => <dyn Component<V>>::downcast_ref::<T>(v),
                        None => None,
                    }
                }
            },
            None => None,
        }
    }

    /// Mutable form of `get_single`.
    pub fn get_single_mut<T: Component<V>>(&mut self) -> (r: Option<&mut T>)
        requires
            old(self).wf(),
        ensures
            final(self).wf(),
            match r {
                Some(c) => old(self)@.single_of::<T>() == Some(*c) && final(self)@ == old(
                    self,
                )@.with_slot(T::type_key(), 0, Some((*final(c)).erase())),
                None => old(self)@.single_of::<T>() is None && final(self)@ == old(self)@,
            },
    {
        let k = T::key();
        match self.find_column(k) {
            Some(i) => {
                proof {
                    lemma_lookup(self.column_entries(), i as int);
                    self.lemma_column_write(i as int);
                    self.lemma_wf_aligned();
                }
                if self.columns[i].1.len() != 1 {
                    None
                } else {
                    downcast_slot::<V, T>(&mut self.columns[i], 0)
                }
            },
            None => None,
        }
    }

    /// The one value of `T`; `get_single` must find it.
    pub fn single<T: Component<V>>(&self) -> (r: &T)
        requires
            self.wf(),
            self@.single_of::<T>() is Some,
        ensures
            self@.single_of::<T>() == Some(*r),
    {
        self.get_single::<T>().unwrap()
    }

    /// Mutable form of `single`.
    pub fn single_mut<T: Component<V>>(&mut self) -> (r: &mut T)
        requires
            old(self).wf(),
            old(self)@.single_of::<T>() is Some,
        ensures
            final(self).wf(),
            old(self)@.single_of::<T>() == Some(*r),
            final(self)@ == old(self)@.with_slot(T::type_key(), 0, Some((*final(r)).erase())),
    {
        self.get_single_mut::<T>().unwrap()
    }
}

impl<V, S> World<V, S> {
    /// Mutable form of `query`: what is written through each entry is stored
    /// back, erased, in that entry's row; every other slot stays as it was.
    pub fn query_mut<T: Component<V>>(&mut self) -> (r: Vec<(Entity, &mut T)>)
        requires
            old(self).wf(),
        ensures
            final(self).wf(),
            r@.map_values(|p: (Entity, &mut T)| entry_mut_view(p)) == old(self)@.query_of::<T>(),
            final(self)@.rows == old(self)@.rows,
            final(self)@.resources == old(self)@.resources,
            final(self)@.schedules == old(self)@.schedules,
            final(self)@.components.dom() == old(self)@.components.dom(),
            forall|k: u64|
                k != T::type_key() && old(self)@.components.contains_key(k)
                    ==> #[trigger] final(self)@.components[k] == old(self)@.components[k],
            forall|j: int|
                0 <= j < r@.len() ==> final(self)@.slot(T::type_key(), #[trigger] r@[j].0@) == Some(
                    (*final(r@[j].1)).erase(),
                ),
            forall|e: nat|
                #[trigger] recover_opt::<V, T>(old(self)@.slot(T::type_key(), e)) is None
                    ==> final(self)@.slot(T::type_key(), e) == old(self)@.slot(T::type_key(), e),
    {
        let k = T::key();
        let mut out: Vec<(Entity, &mut T)> = Vec::new();
        let ghost old_w = *self;
        match self.find_column(k) {
            Some(ci) => {
                proof {
                    lemma_lookup(self.column_entries(), ci as int);
                    self.lemma_column_write(ci as int);
                    self.lemma_wf_aligned();
                }
                let ghost c0 = self.columns@[ci as int].1@;
                let pair = &mut self.columns[ci];
                let col = &mut pair.1;
                let ghost fc = *final(col);
                let n = col.len();
                let mut rest: &mut [Option<V>] = col.as_mut_slice();
                let mut i: usize = 0;
                assert(c0.subrange(0, 0) =~= Seq::<Option<V>>::empty());
                while i < n
                    invariant
                        n == c0.len(),
                        i <= n,
                        rest@ == c0.subrange(i as int, n as int),
                        out@.map_values(|p: (Entity, &mut T)| entry_mut_view(p)) == matches_of::<V, T>(
                            c0.subrange(0, i as int),
                        ),
                        fc@.len() == i + final(rest)@.len(),
                        forall|j: int|
                            i <= j < fc@.len() ==> #[trigger] fc@[j] == final(rest)@[j - i],
                        forall|j: int|
                            #![trigger out@[j]]
                            0 <= j < out@.len() ==> out@[j].0@ < i && fc@[out@[j].0@ as int] == Some(
                                (*final(out@[j].1)).erase(),
                            ),
                        forall|j: int|
                            0 <= j < i && #[trigger] recover_opt::<V, T>(c0[j]) is None ==> fc@[j]
                                == c0[j],
                    decreases n - i,
                {
                    let ghost prefix = c0.subrange(0, i as int + 1);
                    assert(prefix.drop_last() =~= c0.subrange(0, i as int));
                    let ghost fr = final(rest)@;
                    let (head, tail) = rest.split_at_mut(1);
                    match head.first_mut() {
                        Some(slot) => {
                            match downcast_opt::<V, T>(slot) {
                                Some(t) => {
                                    assert(fr[0] == Some((*final(t)).erase()));
                                    assert(fc@[i as int] == fr[0]);
                                    out.push((Entity(i), t));
                                },
                                None => {},
                            }
                        },
                        None => {},
                    }
                    rest = tail;
                    i += 1;
                    assert(out@.map_values(|p: (Entity, &mut T)| entry_mut_view(p)) =~= matches_of::<
                        V,
                        T,
                    >(prefix));
                }
                // the remainder is empty now; this settles its final value
                let _ = rest.first_mut();
                assert(c0.subrange(0, n as int) =~= c0);
                assert(fc@.len() == c0.len());
            },
            None => {
                assert(out@.map_values(|p: (Entity, &mut T)| entry_mut_view(p)) =~= Seq::empty());
            },
        }
        out
    }
}

} // verus!
