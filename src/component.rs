//! Components: values of application types stored in a world in erased form.
//!
//! A world keeps every component and resource as a value of one erased type
//! `V` chosen by the application; each component type says how its values
//! are erased and recognised again, and under which key its column is kept.
use vstd::prelude::*;

verus! {

/// A type that can be stored in a `World` whose type-erased value type is `V`.
///
/// `V` is the erased representation shared by every component and resource of
/// one world (typically an enum with one variant per component type). Each
/// component type is identified by its key: two different component types of
/// one world must have different keys.
pub trait Component<V> {
    /// The key under which values of this type are stored.
    spec fn type_key() -> u64 where Self: Sized;

    /// The erased form of a value.
    spec fn erase(self) -> V where Self: Sized;

    /// The value of this type held by an erased value, if it holds one.
    spec fn recover(value: V) -> Option<Self> where Self: Sized;

    /// The key under which values of this type are stored.
    fn key() -> (k: u64) where Self: Sized
        ensures
            k == Self::type_key(),
    ;

    /// Erases a value; recovering it again gives the same value back.
    fn into_value(self) -> (v: V) where Self: Sized
        ensures
            v == self.erase(),
            Self::recover(v) == Some(self),
    ;

    /// This type's view of an erased value: the value, where the erased
    /// value holds one of this type, else `None`.
    fn from_value(value: &V) -> (r: Option<&Self>) where Self: Sized
        ensures
            opt_deref(r) == Self::recover(*value),
    ;

    /// Mutable form of `from_value`: writing through the result must write
    /// the erased form of the new value back.
    fn from_value_mut(value: &mut V) -> (r: Option<&mut Self>) where Self: Sized
        ensures
            match r {
                Some(c) => Self::recover(*old(value)) == Some(*c) && *final(value) == (
                *final(c)).erase(),
                None => Self::recover(*old(value)) is None && *final(value) == *old(value),
            },
    ;
}

impl<V> dyn Component<V> {
    /// The value of type `T` held by an erased value; `None` when it holds a
    /// value of another type.
    pub fn downcast_ref<T: Component<V>>(value: &V) -> (r: Option<&T>)
        ensures
            opt_deref(r) == T::recover(*value),
    {
        T::from_value(value)
    }

    /// Mutable form of `downcast_ref`: what is written through the result is
    /// stored back, erased, in `value`.
    pub fn downcast_mut<T: Component<V>>(value: &mut V) -> (r: Option<&mut T>)
        ensures
            match r {
                Some(c) => T::recover(*old(value)) == Some(*c) && *final(value) == (
                *final(c)).erase(),
                None => T::recover(*old(value)) is None && *final(value) == *old(value),
            },
    {
        T::from_value_mut(value)
    }
}

/// The value behind an optional shared reference.
pub open spec fn opt_deref<T>(o: Option<&T>) -> Option<T> {
    match o {
        Some(x) => Some(*x),
        None => None,
    }
}

} // verus!

verus! {

/// The value of type `T` held by an optional erased value.
pub open spec fn recover_opt<V, T: Component<V>>(o: Option<V>) -> Option<T> {
    match o {
        Some(v) => T::recover(v),
        None => None,
    }
}

} // verus!

verus! {

/// The rows of a column whose slots hold a `T`, each with that value, in
/// ascending row order.
pub open spec fn matches_of<V, T: Component<V>>(col: Seq<Option<V>>) -> Seq<(nat, T)>
    decreases col.len(),
{
    if col.len() == 0 {
        Seq::empty()
    } else {
        let prev = matches_of::<V, T>(col.drop_last());
        match recover_opt::<V, T>(col.last()) {
            Some(t) => prev.push(((col.len() - 1) as nat, t)),
            None => prev,
        }
    }
}

} // verus!
