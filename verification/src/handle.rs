//! Typed 32-bit handles into arenas.
//!
//! A handle is an index tagged with the kind of record it names. The index
//! `0xFFFF_FFFF` is set aside: no record ever has it.
use core::marker::PhantomData;
use vstd::prelude::*;

verus! {

/// The index that no record ever has.
pub const INVALID_INDEX: u32 = 0xFFFF_FFFF;

/// A reference to a record of kind `T` in an arena.
#[derive(Debug, Hash)]
pub struct Handle<T: ?Sized> {
    index: u32,
    _marker: PhantomData<T>,
}

impl<T: ?Sized> View for Handle<T> {
    type V = u32;

    closed spec fn view(&self) -> u32 {
        self.index
    }
}

impl<T: ?Sized> Handle<T> {
    pub fn new(index: u32) -> (handle: Self)
        ensures
            handle@ == index,
    {
        Handle { index, _marker: PhantomData }
    }

    pub fn invalid() -> (handle: Self)
        ensures
            handle@ == INVALID_INDEX,
    {
        Self::new(u32::MAX)
    }

    pub fn is_valid(&self) -> (valid: bool)
        ensures
            valid == (self@ != INVALID_INDEX),
    {
        self.index != u32::MAX
    }

    pub fn cast<U: ?Sized>(self) -> (handle: Handle<U>)
        ensures
            handle@ == self@,
    {
        Handle::new(self.index)
    }
}

impl<T: ?Sized> core::ops::Deref for Handle<T> {
    type Target = u32;

    fn deref(&self) -> (index: &u32)
        ensures
            *index == self@,
    {
        &self.index
    }
}

impl<T: ?Sized> Clone for Handle<T> {
    fn clone(&self) -> (copy: Self)
        ensures
            copy == *self,
    {
        *self
    }
}

impl<T: ?Sized> Copy for Handle<T> {

}

impl<T: ?Sized> PartialEq for Handle<T> {
    fn eq(&self, other: &Self) -> (equal: bool) {
        self.index == other.index
    }
}

impl<T: ?Sized> vstd::std_specs::cmp::PartialEqSpecImpl for Handle<T> {
    open spec fn obeys_eq_spec() -> bool {
        true
    }

    open spec fn eq_spec(&self, other: &Self) -> bool {
        self@ == other@
    }
}

impl<T: ?Sized> Eq for Handle<T> {

}

/// One index that names a record in each of two arenas that are filled
/// side by side.
#[derive(Debug, Hash)]
pub struct DoubleHandle<A: ?Sized, B: ?Sized> {
    index: u32,
    _marker_a: PhantomData<A>,
    _marker_b: PhantomData<B>,
}

impl<A: ?Sized, B: ?Sized> View for DoubleHandle<A, B> {
    type V = u32;

    closed spec fn view(&self) -> u32 {
        self.index
    }
}

impl<A: ?Sized, B: ?Sized> DoubleHandle<A, B> {
    pub fn new(index: u32) -> (handle: Self)
        ensures
            handle@ == index,
    {
        DoubleHandle { index, _marker_a: PhantomData, _marker_b: PhantomData }
    }

    pub fn invalid() -> (handle: Self)
        ensures
            handle@ == INVALID_INDEX,
    {
        Self::new(u32::MAX)
    }

    pub fn is_valid(&self) -> (valid: bool)
        ensures
            valid == (self@ != INVALID_INDEX),
    {
        self.index != u32::MAX
    }

    pub fn split(self) -> (halves: (HandleA<A>, HandleB<B>))
        ensures
            halves.0@ == self@,
            halves.1@ == self@,
    {
        (HandleA::new(self.index), HandleB::new(self.index))
    }

    pub fn handle_a(self) -> (handle: HandleA<A>)
        ensures
            handle@ == self@,
    {
        HandleA::new(self.index)
    }

    pub fn handle_b(self) -> (handle: HandleB<B>)
        ensures
            handle@ == self@,
    {
        HandleB::new(self.index)
    }
}

impl<A: ?Sized, B: ?Sized> core::ops::Deref for DoubleHandle<A, B> {
    type Target = u32;

    fn deref(&self) -> (index: &u32)
        ensures
            *index == self@,
    {
        &self.index
    }
}

impl<A: ?Sized, B: ?Sized> Clone for DoubleHandle<A, B> {
    fn clone(&self) -> (copy: Self)
        ensures
            copy == *self,
    {
        *self
    }
}

impl<A: ?Sized, B: ?Sized> Copy for DoubleHandle<A, B> {

}

impl<A: ?Sized, B: ?Sized> PartialEq for DoubleHandle<A, B> {
    fn eq(&self, other: &Self) -> (equal: bool) {
        self.index == other.index
    }
}

impl<A: ?Sized, B: ?Sized> vstd::std_specs::cmp::PartialEqSpecImpl for DoubleHandle<A, B> {
    open spec fn obeys_eq_spec() -> bool {
        true
    }

    open spec fn eq_spec(&self, other: &Self) -> bool {
        self@ == other@
    }
}

impl<A: ?Sized, B: ?Sized> Eq for DoubleHandle<A, B> {

}

/// The half of a [`DoubleHandle`] that names the record in the first arena.
#[derive(Debug, Hash)]
pub struct HandleA<T: ?Sized> {
    index: u32,
    _marker: PhantomData<T>,
}

impl<T: ?Sized> View for HandleA<T> {
    type V = u32;

    closed spec fn view(&self) -> u32 {
        self.index
    }
}

impl<T: ?Sized> HandleA<T> {
    pub fn new(index: u32) -> (handle: Self)
        ensures
            handle@ == index,
    {
        HandleA { index, _marker: PhantomData }
    }

    pub fn invalid() -> (handle: Self)
        ensures
            handle@ == INVALID_INDEX,
    {
        Self::new(u32::MAX)
    }

    pub fn is_valid(&self) -> (valid: bool)
        ensures
            valid == (self@ != INVALID_INDEX),
    {
        self.index != u32::MAX
    }

    pub fn cast<U: ?Sized>(self) -> (handle: Handle<U>)
        ensures
            handle@ == self@,
    {
        Handle::new(self.index)
    }

    /// The handle for both arenas of a pair, with this index.
    pub fn into_double<U: ?Sized>(self) -> (handle: DoubleHandle<T, U>)
        ensures
            handle@ == self@,
    {
        DoubleHandle::new(self.index)
    }
}

impl<T: ?Sized> core::ops::Deref for HandleA<T> {
    type Target = u32;

    fn deref(&self) -> (index: &u32)
        ensures
            *index == self@,
    {
        &self.index
    }
}

impl<T: ?Sized> Clone for HandleA<T> {
    fn clone(&self) -> (copy: Self)
        ensures
            copy == *self,
    {
        *self
    }
}

impl<T: ?Sized> Copy for HandleA<T> {

}

impl<T: ?Sized> PartialEq for HandleA<T> {
    fn eq(&self, other: &Self) -> (equal: bool) {
        self.index == other.index
    }
}

impl<T: ?Sized> vstd::std_specs::cmp::PartialEqSpecImpl for HandleA<T> {
    open spec fn obeys_eq_spec() -> bool {
        true
    }

    open spec fn eq_spec(&self, other: &Self) -> bool {
        self@ == other@
    }
}

impl<T: ?Sized> Eq for HandleA<T> {

}

/// The half of a [`DoubleHandle`] that names the record in the second arena.
#[derive(Debug, Hash)]
pub struct HandleB<T: ?Sized> {
    index: u32,
    _marker: PhantomData<T>,
}

impl<T: ?Sized> View for HandleB<T> {
    type V = u32;

    closed spec fn view(&self) -> u32 {
        self.index
    }
}

impl<T: ?Sized> HandleB<T> {
    pub fn new(index: u32) -> (handle: Self)
        ensures
            handle@ == index,
    {
        HandleB { index, _marker: PhantomData }
    }

    pub fn invalid() -> (handle: Self)
        ensures
            handle@ == INVALID_INDEX,
    {
        Self::new(u32::MAX)
    }

    pub fn is_valid(&self) -> (valid: bool)
        ensures
            valid == (self@ != INVALID_INDEX),
    {
        self.index != u32::MAX
    }

    pub fn cast<U: ?Sized>(self) -> (handle: Handle<U>)
        ensures
            handle@ == self@,
    {
        Handle::new(self.index)
    }

    /// The handle for both arenas of a pair, with this index.
    pub fn into_double<U: ?Sized>(self) -> (handle: DoubleHandle<T, U>)
        ensures
            handle@ == self@,
    {
        DoubleHandle::new(self.index)
    }
}

impl<T: ?Sized> core::ops::Deref for HandleB<T> {
    type Target = u32;

    fn deref(&self) -> (index: &u32)
        ensures
            *index == self@,
    {
        &self.index
    }
}

impl<T: ?Sized> Clone for HandleB<T> {
    fn clone(&self) -> (copy: Self)
        ensures
            copy == *self,
    {
        *self
    }
}

impl<T: ?Sized> Copy for HandleB<T> {

}

impl<T: ?Sized> PartialEq for HandleB<T> {
    fn eq(&self, other: &Self) -> (equal: bool) {
        self.index == other.index
    }
}

impl<T: ?Sized> vstd::std_specs::cmp::PartialEqSpecImpl for HandleB<T> {
    open spec fn obeys_eq_spec() -> bool {
        true
    }

    open spec fn eq_spec(&self, other: &Self) -> bool {
        self@ == other@
    }
}

impl<T: ?Sized> Eq for HandleB<T> {

}

} // verus!
