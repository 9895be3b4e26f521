//! Properties that hold of every world, stated over its model.
use vstd::prelude::*;

use crate::component::{matches_of, recover_opt, Component};
use crate::world::WorldModel;

verus! {

/// The world after `n` spawns.
pub open spec fn spawn_n<V, S>(m: WorldModel<V, S>, n: nat) -> WorldModel<V, S>
    decreases n,
{
    if n == 0 {
        m
    } else {
        spawn_n(m, (n - 1) as nat).spawned()
    }
}

/// Once some component type is registered, each spawn adds exactly one slot
/// to every column: after `n` spawns every column, registered before or in
/// between, has one slot per row and the row count has grown by `n`.
pub proof fn lemma_row_alignment<V, S>(m: WorldModel<V, S>, n: nat)
    requires
        m.aligned(),
        m.has_columns(),
    ensures
        spawn_n(m, n).aligned(),
        spawn_n(m, n).has_columns(),
        spawn_n(m, n).rows == m.rows + n,
        spawn_n(m, n).components.dom() == m.components.dom(),
        forall|k: u64| #[trigger]
            m.components.contains_key(k) ==> spawn_n(m, n).components[k].len() == m.rows + n,
    decreases n,
{
    if n > 0 {
        lemma_row_alignment(m, (n - 1) as nat);
        let p = spawn_n(m, (n - 1) as nat);
        let k0 = choose|k: u64| p.components.contains_key(k);
        assert(spawn_n(m, n).components.contains_key(k0));
        assert(spawn_n(m, n).components.dom() =~= m.components.dom());
    }
}

/// Registering a type, at any time, gives it a column with one empty slot per
/// existing row, and every column stays aligned.
pub proof fn lemma_register_aligned<V, S>(m: WorldModel<V, S>, k: u64)
    requires
        m.aligned(),
    ensures
        m.with_column(k).aligned(),
        m.with_column(k).components[k].len() == m.rows,
        forall|e: nat| e < m.rows ==> #[trigger] m.with_column(k).slot(k, e) is None,
{
    assert(m.with_column(k).components.contains_key(k));
}

/// Despawning row `e` empties that row in every column, changes no other
/// slot and no column's length, and keeps the row count, so later spawns get
/// the rows they would have had.
pub proof fn lemma_despawn_clears<V, S>(m: WorldModel<V, S>, e: nat)
    requires
        m.aligned(),
    ensures
        m.despawned(e).aligned(),
        m.despawned(e).rows == m.rows,
        m.despawned(e).spawned().rows == m.spawned().rows,
        m.despawned(e).components.dom() == m.components.dom(),
        forall|k: u64| #[trigger] m.despawned(e).slot(k, e) is None,
        forall|k: u64, r: nat|
            r != e ==> #[trigger] m.despawned(e).slot(k, r) == m.slot(k, r),
        forall|k: u64| #[trigger]
            m.components.contains_key(k) ==> m.despawned(e).components[k].len()
                == m.components[k].len(),
{
    let d = m.despawned(e);
    assert(d.components.dom() =~= m.components.dom());
    assert(d.has_columns() == m.has_columns()) by {
        if m.has_columns() {
            let k0 = choose|k: u64| m.components.contains_key(k);
            assert(d.components.contains_key(k0));
        }
        if d.has_columns() {
            let k0 = choose|k: u64| d.components.contains_key(k);
            assert(m.components.contains_key(k0));
        }
    }
}

/// Writing a value of type `A` at any row never changes what a lookup or a
/// query for another type `B` sees.
pub proof fn lemma_type_isolation<V, S, A: Component<V>, B: Component<V>>(
    m: WorldModel<V, S>,
    e: nat,
    slot: Option<V>,
)
    requires
        A::type_key() != B::type_key(),
    ensures
        forall|r: nat| #[trigger]
            m.with_slot(A::type_key(), e, slot).slot(B::type_key(), r) == m.slot(B::type_key(), r),
        m.with_slot(A::type_key(), e, slot).query_of::<B>() == m.query_of::<B>(),
        m.with_slot(A::type_key(), e, slot).single_of::<B>() == m.single_of::<B>(),
{
}

/// Setting a resource twice leaves only the second value.
pub proof fn lemma_resource_overwrite<V, S>(m: WorldModel<V, S>, k: u64, first: V, second: V)
    ensures
        m.with_resource(k, first).with_resource(k, second) == m.with_resource(k, second),
        m.with_resource(k, first).with_resource(k, second).resource_value(k) == Some(second),
{
    assert(m.with_resource(k, first).with_resource(k, second).resources =~= m.with_resource(
        k,
        second,
    ).resources);
}

/// The matches of a column are in strictly ascending row order, each is a
/// row of the column holding that value, and every row holding a `T` is
/// among them.
pub proof fn lemma_matches<V, T: Component<V>>(col: Seq<Option<V>>)
    ensures
        forall|i: int, j: int|
            0 <= i < j < matches_of::<V, T>(col).len() ==> #[trigger] matches_of::<V, T>(col)[i].0
                < #[trigger] matches_of::<V, T>(col)[j].0,
        forall|i: int|
            0 <= i < matches_of::<V, T>(col).len() ==> #[trigger] matches_of::<V, T>(col)[i].0
                < col.len() && recover_opt::<V, T>(col[matches_of::<V, T>(col)[i].0 as int])
                == Some(matches_of::<V, T>(col)[i].1),
        forall|r: int|
            0 <= r < col.len() && #[trigger] recover_opt::<V, T>(col[r]) is Some ==> exists|i: int|
                0 <= i < matches_of::<V, T>(col).len() && #[trigger] matches_of::<V, T>(col)[i].0
                    == r,
    decreases col.len(),
{
    if col.len() > 0 {
        let prev = col.drop_last();
        lemma_matches::<V, T>(prev);
        let q = matches_of::<V, T>(col);
        let pq = matches_of::<V, T>(prev);
        assert forall|i: int| 0 <= i < pq.len() implies #[trigger] q[i] == pq[i] && pq[i].0 < prev.len() by {}
        assert forall|r: int|
            0 <= r < col.len() && #[trigger] recover_opt::<V, T>(col[r]) is Some implies exists|i: int|
                0 <= i < q.len() && #[trigger] q[i].0 == r by {
            if r < prev.len() {
                assert(recover_opt::<V, T>(prev[r]) is Some);
                let i = choose|i: int| 0 <= i < pq.len() && #[trigger] pq[i].0 == r;
                assert(q[i] == pq[i]);
            } else {
                assert(q[pq.len() as int].0 == r);
            }
        }
    }
}

/// A query for `T` lists exactly the rows whose slot holds a `T`, each with
/// its value, in strictly ascending row order and so without duplicates.
pub proof fn lemma_query_complete<V, S, T: Component<V>>(m: WorldModel<V, S>)
    ensures
        forall|i: int, j: int|
            0 <= i < j < m.query_of::<T>().len() ==> #[trigger] m.query_of::<T>()[i].0
                < #[trigger] m.query_of::<T>()[j].0,
        forall|i: int|
            0 <= i < m.query_of::<T>().len() ==> recover_opt::<V, T>(
                m.slot(T::type_key(), #[trigger] m.query_of::<T>()[i].0),
            ) == Some(m.query_of::<T>()[i].1),
        forall|r: nat|
            #[trigger] recover_opt::<V, T>(m.slot(T::type_key(), r)) is Some ==> exists|i: int|
                0 <= i < m.query_of::<T>().len() && #[trigger] m.query_of::<T>()[i].0 == r,
{
    if m.components.contains_key(T::type_key()) {
        let col = m.components[T::type_key()];
        lemma_matches::<V, T>(col);
        assert forall|r: nat|
            #[trigger] recover_opt::<V, T>(m.slot(T::type_key(), r)) is Some implies exists|i: int|
                0 <= i < m.query_of::<T>().len() && #[trigger] m.query_of::<T>()[i].0 == r by {
            assert(recover_opt::<V, T>(col[r as int]) is Some);
        }
    }
}

/// In a world whose columns are aligned, `get_single` for a registered `T`
/// finds a value only when exactly one row exists, and then it is the value
/// in that row; with zero rows or two or more it finds nothing, however many
/// rows hold a `T`.
pub proof fn lemma_single_row<V, S, T: Component<V>>(m: WorldModel<V, S>)
    requires
        m.aligned(),
        m.components.contains_key(T::type_key()),
    ensures
        m.rows != 1 ==> m.single_of::<T>() is None,
        m.rows == 1 ==> m.single_of::<T>() == recover_opt::<V, T>(m.slot(T::type_key(), 0)),
{
}

} // verus!
