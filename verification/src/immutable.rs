//! A value that is either owned or shared.

use vstd::prelude::*;
use std::sync::Arc;

verus! {

/// A value held directly or behind a shared handle; readers see the same
/// value either way.
pub enum Immutable<T> {
    Owned(T),
    Arc(Arc<T>),
}

impl<T> Immutable<T> {
    /// The value held.
    pub open spec fn inner(&self) -> T {
        match self {
            Immutable::Owned(v) => *v,
            Immutable::Arc(v) => **v,
        }
    }

    /// The value held.
    pub fn get_inner(&self) -> (v: &T)
        ensures
            *v == self.inner(),
    {
        match self {
            Immutable::Owned(v) => v,
            Immutable::Arc(v) => &**v,
        }
    }

    /// The same value behind a shared handle.
    pub fn to_arc(self) -> (v: Arc<T>)
        ensures
            *v == self.inner(),
    {
        match self {
            Immutable::Owned(v) => Arc::new(v),
            Immutable::Arc(v) => v,
        }
    }
}

} // verus!
