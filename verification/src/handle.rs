use std::marker::PhantomData;
use vstd::prelude::*;
use vstd::std_specs::cmp::PartialEqSpec;

verus! {

/// A reference to a resource of type `T` that lives in a frame scope.
///
/// The view of a handle is the key under which the resource is stored.
pub struct Handle<T> {
    key: u64,
    _marker: PhantomData<T>,
}

impl<T> View for Handle<T> {
    type V = u64;

    closed spec fn view(&self) -> u64 {
        self.key
    }
}

impl<T> Handle<T> {
    /// The handle of the resource that is stored under `key`.
    pub(crate) fn new(key: u64) -> (handle: Self)
        ensures
            handle@ == key,
    {
        Handle { key, _marker: PhantomData }
    }

    /// The key under which the resource is stored.
    pub fn key(&self) -> (key: u64)
        ensures
            key == self@,
    {
        self.key
    }
}

impl<T> Clone for Handle<T> {
    fn clone(&self) -> (handle: Self)
        ensures
            handle == *self,
    {
        *self
    }
}

impl<T> Copy for Handle<T> {

}

impl<T> PartialEq for Handle<T> {
    fn eq(&self, other: &Self) -> (equal: bool) {
        self.key == other.key
    }
}

impl<T> vstd::std_specs::cmp::PartialEqSpecImpl for Handle<T> {
    open spec fn obeys_eq_spec() -> bool {
        true
    }

    open spec fn eq_spec(&self, other: &Self) -> bool {
        self@ == other@
    }
}


/// Two handles are equal exactly if they have the same key.
pub proof fn law_handles_are_equal_by_key<T>(a: Handle<T>, b: Handle<T>)
    ensures
        a.eq_spec(&b) <==> a@ == b@,
{
}

} // verus!
