//! Fixed-layout containers used by the dictionary file format.

use vstd::prelude::*;

verus! {

/// A value addressed by its offset from the containing structure.
#[derive(Debug)]
pub struct OffsetPtr<T> {
    pub offset: i32,
    pub _marker: core::marker::PhantomData<T>,
}

impl<T> OffsetPtr<T> {
    /// The null offset.
    pub fn new() -> (p: Self)
        ensures
            p.offset == 0,
    {
        OffsetPtr { offset: 0, _marker: core::marker::PhantomData }
    }

    /// A pointer at the given offset.
    pub fn from_offset(offset: i32) -> (p: Self)
        ensures
            p.offset == offset,
    {
        OffsetPtr { offset, _marker: core::marker::PhantomData }
    }
}

impl<T> Default for OffsetPtr<T> {
    fn default() -> (p: Self)
        ensures
            p.offset == 0,
    {
        OffsetPtr::new()
    }
}

/// A list of at most `size` elements laid out in place.
#[derive(Debug)]
pub struct List<T> {
    pub size: usize,
    pub at: Vec<T>,
}

impl<T> List<T> {
    /// An empty list with room for `size` elements.
    pub fn new(size: usize) -> (l: Self)
        ensures
            l.size == size,
            l.at@.len() == 0,
    {
        List { size, at: Vec::with_capacity(size) }
    }

    /// The first element, if any.
    pub fn begin(&self) -> (r: Option<&T>)
        ensures
            (match r {
                Some(v) => self.at@.len() > 0 && *v == self.at@[0],
                None => self.at@.len() == 0,
            }),
    {
        if self.at.len() > 0 {
            Some(&self.at[0])
        } else {
            None
        }
    }

    /// The element at the declared size's last slot, if it is filled.
    pub fn end(&self) -> (r: Option<&T>)
        ensures
            (match r {
                Some(v) => 1 <= self.size <= self.at@.len() && *v == self.at@[self.size - 1],
                None => self.size < 1 || self.size > self.at@.len(),
            }),
    {
        if self.size >= 1 && self.size <= self.at.len() {
            Some(&self.at[self.size - 1])
        } else {
            None
        }
    }

    /// Mutable access to the first element.
    pub fn begin_mut(&mut self) -> (r: &mut T)
        requires
            old(self).at@.len() > 0,
        ensures
            *r == old(self).at@[0],
            final(self).size == old(self).size,
            final(self).at@ == old(self).at@.update(0, *final(r)),
    {
        let r = &mut self.at[0];
        r
    }

    /// Mutable access to the declared size's last slot.
    pub fn end_mut(&mut self) -> (r: &mut T)
        requires
            1 <= old(self).size <= old(self).at@.len(),
        ensures
            *r == old(self).at@[old(self).size - 1],
            final(self).size == old(self).size,
            final(self).at@ == old(self).at@.update(old(self).size - 1, *final(r)),
    {
        let i = self.size - 1;
        let r = &mut self.at[i];
        r
    }
}

} // verus!
