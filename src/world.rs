//! The world: component columns, resources and schedules, with the model
//! that every operation is specified against.
use vstd::prelude::*;

use crate::component::{matches_of, opt_deref, recover_opt, Component};
use crate::entity::{Entity, EntityWorld};
use crate::keyed::{
    has_key, keyed_map, lemma_lookup, lemma_map_values, lemma_push, lemma_update, unique_keys,
};

mod query;
mod resources;
mod schedules;

verus! {

/// What a world holds, as mathematical values.
pub struct WorldModel<V, S> {
    /// The column of each registered component type, by type key: one slot per row.
    pub components: Map<u64, Seq<Option<V>>>,
    /// The number of rows: the length of every column, zero while no type is registered.
    pub rows: nat,
    /// The one value of each resource type, by type key.
    pub resources: Map<u64, V>,
    /// The systems of each schedule, by name, in the order they were added.
    pub schedules: Map<Seq<char>, Seq<S>>,
}

impl<V, S> WorldModel<V, S> {
    /// Some component type is registered.
    pub open spec fn has_columns(self) -> bool {
        exists|k: u64| self.components.contains_key(k)
    }

    /// Every column has one slot per row.
    pub open spec fn aligned(self) -> bool {
        &&& forall|k: u64| #[trigger]
            self.components.contains_key(k) ==> self.components[k].len() == self.rows
        &&& !self.has_columns() ==> self.rows == 0
    }

    /// The slot of row `e` in the column with key `k`; `None` where there is none.
    pub open spec fn slot(self, k: u64, e: nat) -> Option<V> {
        if self.components.contains_key(k) && e < self.components[k].len() {
            self.components[k][e as int]
        } else {
            None
        }
    }

    /// The resource with key `k`, if there is one.
    pub open spec fn resource_value(self, k: u64) -> Option<V> {
        if self.resources.contains_key(k) {
            Some(self.resources[k])
        } else {
            None
        }
    }

    /// What a query for `T` returns: each row whose slot in `T`'s column holds
    /// a `T`, with that value, in ascending row order.
    pub open spec fn query_of<T: Component<V>>(self) -> Seq<(nat, T)> {
        if self.components.contains_key(T::type_key()) {
            matches_of::<V, T>(self.components[T::type_key()])
        } else {
            Seq::empty()
        }
    }

    /// The one value of `T` when `T`'s column has exactly one row and that
    /// row holds a `T`.
    pub open spec fn single_of<T: Component<V>>(self) -> Option<T> {
        if self.components.contains_key(T::type_key()) && self.components[T::type_key()].len()
            == 1 {
            recover_opt::<V, T>(self.components[T::type_key()][0])
        } else {
            None
        }
    }

    /// A column of empty slots, one per row.
    pub open spec fn empty_column(self) -> Seq<Option<V>> {
        Seq::new(self.rows, |i: int| None)
    }

    /// The world after registering (or re-registering) the column `k`.
    pub open spec fn with_column(self, k: u64) -> Self {
        WorldModel { components: self.components.insert(k, self.empty_column()), ..self }
    }

    /// The world after one more row: every column gains an empty slot. With no
    /// column registered nothing changes.
    pub open spec fn spawned(self) -> Self {
        WorldModel {
            components: Map::new(
                |k: u64| self.components.contains_key(k),
                |k: u64| self.components[k].push(None),
            ),
            rows: if self.has_columns() {
                self.rows + 1
            } else {
                self.rows
            },
            ..self
        }
    }

    /// The world after emptying row `e` of every column.
    pub open spec fn despawned(self, e: nat) -> Self {
        WorldModel {
            components: Map::new(
                |k: u64| self.components.contains_key(k),
                |k: u64|
                    if e < self.components[k].len() {
                        self.components[k].update(e as int, None)
                    } else {
                        self.components[k]
                    },
            ),
            ..self
        }
    }

    /// The world after writing `slot` at row `e` of column `k`, registering
    /// the column first where it is missing.
    pub open spec fn with_slot(self, k: u64, e: nat, slot: Option<V>) -> Self {
        let col = if self.components.contains_key(k) {
            self.components[k]
        } else {
            self.empty_column()
        };
        WorldModel { components: self.components.insert(k, col.update(e as int, slot)), ..self }
    }

    /// The world after setting the resource with key `k` to `v`.
    pub open spec fn with_resource(self, k: u64, v: V) -> Self {
        WorldModel { resources: self.resources.insert(k, v), ..self }
    }
}

/// The row and value of a query result entry.
pub open spec fn entry_view<T>(p: (Entity, &T)) -> (nat, T) {
    (p.0@, *p.1)
}

/// The row and current value of a mutable query result entry.
pub open spec fn entry_mut_view<T>(p: (Entity, &mut T)) -> (nat, T) {
    (p.0@, *p.1)
}

/// The storage engine: one column per registered component type, one value
/// per resource type, and the named schedules of systems.
///
/// Each registry is a list of `(key, value)` entries whose keys are distinct,
/// so that every column can be walked and extended in place. Rows are never
/// reused: despawning empties a row but keeps it. Registering a component
/// type again replaces its column, dropping what it held.
pub struct World<V, S> {
    columns: Vec<(u64, Vec<Option<V>>)>,
    resources: Vec<(u64, V)>,
    schedules: Vec<(String, Vec<S>)>,
}

impl<V, S> View for World<V, S> {
    type V = WorldModel<V, S>;

    closed spec fn view(&self) -> WorldModel<V, S> {
        WorldModel {
            components: keyed_map(self.column_entries()),
            rows: self.row_len(),
            resources: keyed_map(self.resources@),
            schedules: keyed_map(self.schedule_entries()),
        }
    }
}

impl<V, S> World<V, S> {
    closed spec fn column_entries(&self) -> Seq<(u64, Seq<Option<V>>)> {
        self.columns@.map_values(|c: (u64, Vec<Option<V>>)| (c.0, c.1@))
    }

    closed spec fn schedule_entries(&self) -> Seq<(Seq<char>, Seq<S>)> {
        self.schedules@.map_values(|s: (String, Vec<S>)| (s.0@, s.1@))
    }

    closed spec fn row_len(&self) -> nat {
        if self.columns@.len() == 0 {
            0
        } else {
            self.columns@[0].1@.len()
        }
    }

    /// The world's internal invariant: keys are unique in each registry and
    /// every column has the same length.
    pub closed spec fn wf(&self) -> bool {
        &&& unique_keys(self.column_entries())
        &&& unique_keys(self.resources@)
        &&& unique_keys(self.schedule_entries())
        &&& forall|i: int|
            0 <= i < self.columns@.len() ==> #[trigger] self.columns@[i].1@.len() == self.row_len()
    }

    /// A well-formed world's columns are aligned.
    pub proof fn lemma_wf_aligned(&self)
        requires
            self.wf(),
        ensures
            self@.aligned(),
    {
        let e = self.column_entries();
        assert forall|k: u64| #[trigger] self@.components.contains_key(k) implies self@.components[k].len()
            == self@.rows by {
            let i = choose|i: int| 0 <= i < e.len() && #[trigger] e[i].0 == k;
            lemma_lookup(e, i);
            assert(self.columns@[i].1@.len() == self.row_len());
        }
        if self.columns@.len() > 0 {
            lemma_lookup(e, 0);
            assert(self@.components.contains_key(e[0].0));
        }
    }

    pub fn new() -> (w: Self)
        ensures
            w.wf(),
            w@.components == Map::<u64, Seq<Option<V>>>::empty(),
            w@.rows == 0,
            w@.resources == Map::<u64, V>::empty(),
            w@.schedules == Map::<Seq<char>, Seq<S>>::empty(),
    {
        let w = World { columns: Vec::new(), resources: Vec::new(), schedules: Vec::new() };
        assert(w@.components =~= Map::empty());
        assert(w@.resources =~= Map::empty());
        assert(w@.schedules =~= Map::empty());
        w
    }

    /// The index of the column with key `k`.
    fn find_column(&self, k: u64) -> (r: Option<usize>)
        ensures
            match r {
                Some(i) => i < self.columns@.len() && self.columns@[i as int].0 == k,
                None => !has_key(self.column_entries(), k),
            },
    {
        let mut i: usize = 0;
        while i < self.columns.len()
            invariant
                i <= self.columns@.len(),
                forall|j: int| 0 <= j < i ==> self.columns@[j].0 != k,
            decreases self.columns@.len() - i,
        {
            if self.columns[i].0 == k {
                return Some(i);
            }
            i += 1;
        }
        proof {
            let e = self.column_entries();
            assert forall|j: int| 0 <= j < e.len() implies #[trigger] e[j].0 != k by {
                assert(e[j].0 == self.columns@[j].0);
            }
        }
        None
    }

    /// The number of rows.
    pub fn row_count(&self) -> (n: usize)
        ensures
            n as nat == self@.rows,
    {
        if self.columns.len() == 0 {
            0
        } else {
            self.columns[0].1.len()
        }
    }
}


impl<V, S> World<V, S> {
    proof fn lemma_has_columns(&self)
        requires
            self.wf(),
        ensures
            self@.has_columns() == (self.columns@.len() > 0),
    {
        let e = self.column_entries();
        if self.columns@.len() > 0 {
            lemma_lookup(e, 0);
            assert(self@.components.contains_key(e[0].0));
        } else {
            assert forall|k: u64| !#[trigger] self@.components.contains_key(k) by {}
        }
    }

    /// Declares the column of `T`, empty in every row. A column already there
    /// is replaced, and what it held is dropped.
    pub fn register_component<T: Component<V>>(&mut self)
        requires
            old(self).wf(),
        ensures
            final(self).wf(),
            final(self)@ == old(self)@.with_column(T::type_key()),
            final(self)@.has_columns(),
    {
        let k = T::key();
        self.register_key(k);
        assert(self@.components.contains_key(k));
    }

    fn register_key(&mut self, k: u64)
        requires
            old(self).wf(),
        ensures
            final(self).wf(),
            final(self)@ == old(self)@.with_column(k),
    {
        proof {
            self.lemma_wf_aligned();
            self.lemma_has_columns();
        }
        let n = self.row_count();
        let col = empty_slots(n);
        let ghost old_w = *self;
        let ghost e = self.column_entries();
        match self.find_column(k) {
            Some(i) => {
                self.columns.set(i, (k, col));
                proof {
                    assert(e[i as int].0 == k);
                    lemma_update(e, i as int, col@);
                    assert(self.column_entries() =~= e.update(i as int, (k, col@)));
                }
            },
            None => {
                self.columns.push((k, col));
                proof {
                    lemma_push(e, k, col@);
                    assert(self.column_entries() =~= e.push((k, col@)));
                }
            },
        }
        proof {
            assert(self.row_len() == old_w.row_len());
            assert forall|j: int| 0 <= j < self.columns@.len() implies #[trigger] self.columns@[j].1@.len()
                == self.row_len() by {
                if j < old_w.columns@.len() {
                    assert(old_w.columns@[j].1@.len() == old_w.row_len());
                }
                if old_w.columns@.len() > 0 {
                    assert(old_w.columns@[0].1@.len() == old_w.row_len());
                }
            }
            assert(self@.components =~= old_w@.with_column(k).components);
        }
    }
}


impl<V, S> World<V, S> {
    /// Adds one row: every column gains an empty slot. Returns the new row,
    /// which is the number of rows before (zero while no type is registered).
    pub(crate) fn push_row(&mut self) -> (e: Entity)
        requires
            old(self).wf(),
        ensures
            final(self).wf(),
            final(self)@ == old(self)@.spawned(),
            e@ == old(self)@.rows,
    {
        proof {
            self.lemma_has_columns();
        }
        let id = self.row_count();
        let ghost old_w = *self;
        let ghost e = self.column_entries();
        let mut i: usize = 0;
        while i < self.columns.len()
            invariant
                i <= self.columns@.len(),
                self.columns@.len() == old_w.columns@.len(),
                self.resources == old_w.resources,
                self.schedules == old_w.schedules,
                old_w.wf(),
                forall|j: int|
                    #![trigger self.columns@[j]]
                    0 <= j < i ==> self.columns@[j].0 == old_w.columns@[j].0
                        && self.columns@[j].1@ == old_w.columns@[j].1@.push(None),
                forall|j: int|
                    #![trigger self.columns@[j]]
                    i <= j < self.columns@.len() ==> self.columns@[j] == old_w.columns@[j],
            decreases self.columns@.len() - i,
        {
            push_empty(&mut self.columns[i]);
            i += 1;
        }
        proof {
            let f = |c: Seq<Option<V>>| c.push(None);
            let e2 = self.column_entries();
            assert forall|j: int| 0 <= j < e.len() implies #[trigger] e2[j] == (e[j].0, f(e[j].1)) by {}
            lemma_map_values(e, e2, f);
            assert(self@.components =~= old_w@.spawned().components);
            if self.columns@.len() > 0 {
                assert(old_w.columns@[0].1@.len() == old_w.row_len());
            }
            assert forall|j: int| 0 <= j < self.columns@.len() implies #[trigger] self.columns@[j].1@.len()
                == self.row_len() by {
                assert(old_w.columns@[j].1@.len() == old_w.row_len());
                assert(old_w.columns@[0].1@.len() == old_w.row_len());
            }
        }
        Entity(id)
    }

    /// Empties row `e` of every column. No row is removed, so the other
    /// entities keep their rows.
    pub fn despawn(&mut self, entity: Entity)
        requires
            old(self).wf(),
        ensures
            final(self).wf(),
            final(self)@ == old(self)@.despawned(entity@),
    {
        let ghost old_w = *self;
        let ghost e = self.column_entries();
        let mut i: usize = 0;
        while i < self.columns.len()
            invariant
                i <= self.columns@.len(),
                self.columns@.len() == old_w.columns@.len(),
                self.resources == old_w.resources,
                self.schedules == old_w.schedules,
                old_w.wf(),
                forall|j: int|
                    #![trigger self.columns@[j]]
                    0 <= j < i ==> self.columns@[j].0 == old_w.columns@[j].0
                        && self.columns@[j].1@ == (if entity@ < old_w.columns@[j].1@.len() {
                            old_w.columns@[j].1@.update(entity@ as int, None)
                        } else {
                            old_w.columns@[j].1@
                        }),
                forall|j: int|
                    #![trigger self.columns@[j]]
                    i <= j < self.columns@.len() ==> self.columns@[j] == old_w.columns@[j],
            decreases self.columns@.len() - i,
        {
            clear_slot(&mut self.columns[i], entity.0);
            i += 1;
        }
        proof {
            let f = |c: Seq<Option<V>>|
                if entity@ < c.len() {
                    c.update(entity@ as int, None)
                } else {
                    c
                };
            let e2 = self.column_entries();
            assert forall|j: int| 0 <= j < e.len() implies #[trigger] e2[j] == (e[j].0, f(e[j].1)) by {}
            lemma_map_values(e, e2, f);
            assert(self@.components =~= old_w@.despawned(entity@).components);
            assert forall|j: int| 0 <= j < self.columns@.len() implies #[trigger] self.columns@[j].1@.len()
                == self.row_len() by {
                assert(old_w.columns@[j].1@.len() == old_w.row_len());
                assert(old_w.columns@[0].1@.len() == old_w.row_len());
            }
        }
    }

    /// Writes `slot` at row `e` of column `k`, registering the column first
    /// where it is missing.
    fn set_slot(&mut self, k: u64, e: usize, slot: Option<V>)
        requires
            old(self).wf(),
            e < old(self)@.rows,
        ensures
            final(self).wf(),
            final(self)@ == old(self)@.with_slot(k, e as nat, slot),
    {
        proof {
            self.lemma_wf_aligned();
        }
        let ghost old_w = *self;
        let mut found = self.find_column(k);
        if found.is_none() {
            self.register_key(k);
            found = self.find_column(k);
            proof {
                self.lemma_wf_aligned();
                assert(self@.components.contains_key(k));
            }
        }
        let ghost mid_w = *self;
        let ghost es = self.column_entries();
        assert(mid_w@.with_slot(k, e as nat, slot) == old_w@.with_slot(k, e as nat, slot)) by {
            assert(mid_w@.with_slot(k, e as nat, slot).components =~= old_w@.with_slot(
                k,
                e as nat,
                slot,
            ).components);
        }
        match found {
            Some(i) => {
                let ghost c = self.columns@[i as int].1@;
                proof {
                    lemma_lookup(es, i as int);
                    assert(self.columns@[i as int].1@.len() == self.row_len());
                }
                write_slot(&mut self.columns[i], e, slot);
                proof {
                    lemma_update(es, i as int, c.update(e as int, slot));
                    assert(self.column_entries() =~= es.update(i as int, (k, c.update(e as int, slot))));
                    assert(self@.components =~= mid_w@.with_slot(k, e as nat, slot).components);
                    assert forall|j: int| 0 <= j < self.columns@.len() implies #[trigger] self.columns@[j].1@.len()
                        == self.row_len() by {
                        assert(mid_w.columns@[j].1@.len() == mid_w.row_len());
                        assert(mid_w.columns@[0].1@.len() == mid_w.row_len());
                    }
                }
            },
            None => {},
        }
    }
}



fn push_empty<V>(col: &mut (u64, Vec<Option<V>>))
    ensures
        final(col).0 == old(col).0,
        final(col).1@ == old(col).1@.push(None),
{
    col.1.push(None);
}

fn clear_slot<V>(col: &mut (u64, Vec<Option<V>>), e: usize)
    ensures
        final(col).0 == old(col).0,
        final(col).1@ == if e < old(col).1@.len() {
            old(col).1@.update(e as int, None)
        } else {
            old(col).1@
        },
{
    if e < col.1.len() {
        col.1.set(e, None);
    }
}

fn write_slot<V>(col: &mut (u64, Vec<Option<V>>), e: usize, slot: Option<V>)
    requires
        e < old(col).1@.len(),
    ensures
        final(col).0 == old(col).0,
        final(col).1@ == old(col).1@.update(e as int, slot),
{
    col.1.set(e, slot);
}


fn empty_slots<V>(n: usize) -> (col: Vec<Option<V>>)
    ensures
        col@ == Seq::new(n as nat, |j: int| None::<V>),
{
    let mut col: Vec<Option<V>> = Vec::new();
    let mut i: usize = 0;
    while i < n
        invariant
            i <= n,
            col@ == Seq::new(i as nat, |j: int| None::<V>),
        decreases n - i,
    {
        col.push(None);
        i += 1;
        assert(col@ =~= Seq::new(i as nat, |j: int| None::<V>));
    }
    col
}


impl<V, S> World<V, S> {
    /// Stores `component` at the entity's row in the column of `T`,
    /// registering that column first if `T` is not registered yet.
    pub fn add_component<T: Component<V>>(&mut self, entity: Entity, component: T)
        requires
            old(self).wf(),
            entity@ < old(self)@.rows,
        ensures
            final(self).wf(),
            final(self)@ == old(self)@.with_slot(T::type_key(), entity@, Some(component.erase())),
    {
        let k = T::key();
        let v = component.into_value();
        self.set_slot(k, entity.0, Some(v));
    }

    /// Empties the entity's slot in the column of `T`; where `T` is not
    /// registered, registers it (every slot empty).
    pub fn remove_component<T: Component<V>>(&mut self, entity: Entity)
        requires
            old(self).wf(),
            old(self)@.components.contains_key(T::type_key()) ==> entity@ < old(self)@.rows,
        ensures
            final(self).wf(),
            final(self)@ == if old(self)@.components.contains_key(T::type_key()) {
                old(self)@.with_slot(T::type_key(), entity@, None)
            } else {
                old(self)@.with_column(T::type_key())
            },
    {
        let k = T::key();
        proof {
            self.lemma_wf_aligned();
        }
        match self.find_column(k) {
            Some(i) => {
                proof {
                    lemma_lookup(self.column_entries(), i as int);
                }
                self.set_slot(k, entity.0, None);
            },
            None => {
                self.register_key(k);
            },
        }
    }

    /// The value of type `T` at the entity's row, if `T` is registered, the
    /// row exists and its slot holds a `T`.
    pub fn get_component<T: Component<V>>(&self, entity: Entity) -> (r: Option<&T>)
        requires
            self.wf(),
        ensures
            opt_deref(r) == recover_opt::<V, T>(self@.slot(T::type_key(), entity@)),
    {
        let k = T::key();
        match self.find_column(k) {
            Some(i) => {
                proof {
                    lemma_lookup(self.column_entries(), i as int);
                }
                let col = &self.columns[i].1;
                if entity.0 < col.len() {
                    match &col[entity.0] {
                        Some(v) => <dyn Component<V>>::downcast_ref::<T>(v),
                        None => None,
                    }
                } else {
                    None
                }
            },
            None => None,
        }
    }

    /// Mutable form of `get_component`: what is written through the result
    /// is stored back, erased, in the entity's slot.
    pub fn get_component_mut<T: Component<V>>(&mut self, entity: Entity) -> (r: Option<&mut T>)
        requires
            old(self).wf(),
        ensures
            final(self).wf(),
            match r {
                Some(c) => recover_opt::<V, T>(old(self)@.slot(T::type_key(), entity@)) == Some(*c)
                    && final(self)@ == old(self)@.with_slot(
                    T::type_key(),
                    entity@,
                    Some((*final(c)).erase()),
                ),
                None => recover_opt::<V, T>(old(self)@.slot(T::type_key(), entity@)) is None
                    && final(self)@ == old(self)@,
            },
    {
        let k = T::key();
        let ghost old_w = *self;
        let ghost es = self.column_entries();
        proof {
            self.lemma_wf_aligned();
        }
        match self.find_column(k) {
            Some(i) => {
                proof {
                    lemma_lookup(es, i as int);
                    old_w.lemma_column_write(i as int);
                }
                let pair = &mut self.columns[i];
                let r = downcast_slot::<V, T>(pair, entity.0);
                r
            },
            None => None,
        }
    }
}


/// The value of type `T` in slot `e` of a column, borrowed mutably.
fn downcast_slot<V, T: Component<V>>(pair: &mut (u64, Vec<Option<V>>), e: usize) -> (r: Option<
    &mut T,
>)
    ensures
        final(pair).0 == old(pair).0,
        final(pair).1@.len() == old(pair).1@.len(),
        match r {
            Some(c) => e < old(pair).1@.len() && recover_opt::<V, T>(old(pair).1@[e as int])
                == Some(*c) && final(pair).1@ == old(pair).1@.update(
                e as int,
                Some((*final(c)).erase()),
            ),
            None => (e < old(pair).1@.len() ==> recover_opt::<V, T>(old(pair).1@[e as int]) is None)
                && final(pair).1@ == old(pair).1@,
        },
{
    downcast_column::<V, T>(&mut pair.1, e)
}

fn downcast_column<V, T: Component<V>>(col: &mut Vec<Option<V>>, e: usize) -> (r: Option<&mut T>)
    ensures
        final(col)@.len() == old(col)@.len(),
        match r {
            Some(c) => e < old(col)@.len() && recover_opt::<V, T>(old(col)@[e as int]) == Some(*c)
                && final(col)@ == old(col)@.update(e as int, Some((*final(c)).erase())),
            None => (e < old(col)@.len() ==> recover_opt::<V, T>(old(col)@[e as int]) is None)
                && final(col)@ == old(col)@,
        },
{
    if e < col.len() {
        downcast_opt::<V, T>(&mut col[e])
    } else {
        None
    }
}

fn downcast_opt<V, T: Component<V>>(slot: &mut Option<V>) -> (r: Option<&mut T>)
    ensures
        match r {
            Some(c) => recover_opt::<V, T>(*old(slot)) == Some(*c) && *final(slot) == Some(
                (*final(c)).erase(),
            ),
            None => recover_opt::<V, T>(*old(slot)) is None && *final(slot) == *old(slot),
        },
{
    match slot {
        Some(v) => <dyn Component<V>>::downcast_mut::<T>(v),
        None => None,
    }
}


impl<V, S> World<V, S> {
    /// Any world that differs from this one only in the column at index `i`,
    /// with its key and length kept, is well formed and has that column's new
    /// slots under its key.
    proof fn lemma_column_write(self, i: int)
        requires
            self.wf(),
            0 <= i < self.columns@.len(),
        ensures
            forall|w2: World<V, S>|
                #![trigger w2@]
                #![trigger w2.wf()]
                w2.columns@.len() == self.columns@.len() && w2.resources == self.resources
                    && w2.schedules == self.schedules && w2.columns@[i].0 == self.columns@[i].0
                    && w2.columns@[i].1@.len() == self.columns@[i].1@.len() && (forall|j: int|
                    0 <= j < self.columns@.len() && j != i ==> #[trigger] w2.columns@[j]
                        == self.columns@[j]) ==> w2.wf() && w2@ == (WorldModel {
                    components: self@.components.insert(self.columns@[i].0, w2.columns@[i].1@),
                    ..self@
                }),
    {
        assert forall|w2: World<V, S>|
            #![trigger w2@]
            #![trigger w2.wf()]
            w2.columns@.len() == self.columns@.len() && w2.resources == self.resources
                && w2.schedules == self.schedules && w2.columns@[i].0 == self.columns@[i].0
                && w2.columns@[i].1@.len() == self.columns@[i].1@.len() && (forall|j: int|
                0 <= j < self.columns@.len() && j != i ==> #[trigger] w2.columns@[j]
                    == self.columns@[j]) implies w2.wf() && w2@ == (WorldModel {
            components: self@.components.insert(self.columns@[i].0, w2.columns@[i].1@),
            ..self@
        }) by {
            let es = self.column_entries();
            lemma_update(es, i, w2.columns@[i].1@);
            assert(w2.column_entries() =~= es.update(i, (es[i].0, w2.columns@[i].1@)));
            assert(self.columns@[i].1@.len() == self.row_len());
            assert(self.columns@[0].1@.len() == self.row_len());
            if i != 0 {
                assert(w2.columns@[0] == self.columns@[0]);
            }
            assert(w2.row_len() == self.row_len());
            assert forall|j: int| 0 <= j < w2.columns@.len() implies #[trigger] w2.columns@[j].1@.len()
                == w2.row_len() by {
                assert(self.columns@[j].1@.len() == self.row_len());
                if j != i {
                    assert(w2.columns@[j] == self.columns@[j]);
                }
            }
            assert(w2.schedule_entries() == self.schedule_entries());
        }
    }
}


impl<V, S> World<V, S> {
    /// Adds an entity: every column gains an empty slot, and the new entity's
    /// row is the number of rows before (zero while no type is registered).
    /// Returns a handle to it.
    pub fn spawn(&mut self) -> (r: EntityWorld<'_, V, S>)
        requires
            old(self).wf(),
        ensures
            r.entity@ == old(self)@.rows,
            (*r.world)@ == old(self)@.spawned(),
            *final(r.world) == *final(self),
            r.world.wf(),
            old(self)@.has_columns() ==> r.inv(),
    {
        proof {
            self.lemma_wf_aligned();
        }
        let entity = self.push_row();
        proof {
            self.lemma_wf_aligned();
        }
        EntityWorld { world: self, entity }
    }
}


impl<V, S> World<V, S> {
    /// The keys of the registered component types, each once.
    pub fn component_keys(&self) -> (r: Vec<u64>)
        requires
            self.wf(),
        ensures
            r@.no_duplicates(),
            forall|k: u64| r@.contains(k) <==> self@.components.contains_key(k),
    {
        let ghost e = self.column_entries();
        let mut r: Vec<u64> = Vec::new();
        let mut i: usize = 0;
        while i < self.columns.len()
            invariant
                i <= self.columns@.len(),
                e == self.column_entries(),
                unique_keys(e),
                r@.len() == i,
                forall|j: int| 0 <= j < i ==> #[trigger] r@[j] == e[j].0,
            decreases self.columns@.len() - i,
        {
            r.push(self.columns[i].0);
            i += 1;
        }
        proof {
            assert forall|k: u64| r@.contains(k) <==> self@.components.contains_key(k) by {
                if r@.contains(k) {
                    let j = choose|j: int| 0 <= j < r@.len() && r@[j] == k;
                    assert(e[j].0 == k);
                }
                if has_key(e, k) {
                    let j = choose|j: int| 0 <= j < e.len() && #[trigger] e[j].0 == k;
                    assert(r@[j] == k);
                }
            }
            assert forall|a: int, b: int|
                0 <= a < r@.len() && 0 <= b < r@.len() && a != b implies r@[a] != r@[b] by {
                assert(r@[a] == e[a].0 && r@[b] == e[b].0);
            }
        }
        r
    }

    /// The erased value in row `entity` of the column with key `k`, if any.
    pub fn slot_value(&self, k: u64, entity: Entity) -> (r: Option<&V>)
        requires
            self.wf(),
        ensures
            opt_deref(r) == self@.slot(k, entity@),
    {
        match self.find_column(k) {
            Some(i) => {
                proof {
                    lemma_lookup(self.column_entries(), i as int);
                }
                let col = &self.columns[i].1;
                if entity.0 < col.len() {
                    col[entity.0].as_ref()
                } else {
                    None
                }
            },
            None => None,
        }
    }
}

} // verus!
