//! An earlier form of the bounded-view buffer, kept for the generation
//! results that expose only a valid sub-range.

use vstd::prelude::*;

verus! {

/// A vector where only a section of the data may be viewed.  When the type
/// is compared against another value, only data in the visible part takes
/// part.
pub struct RestrictedArray<T> {
    start: usize,
    end: usize,
    array: Vec<T>,
}

impl<T> View for RestrictedArray<T> {
    type V = (Seq<T>, int, int);

    closed spec fn view(&self) -> (Seq<T>, int, int) {
        (self.array@, self.start as int, self.end as int)
    }
}

impl<T> RestrictedArray<T> {
    /// The visible range lies within the buffer.
    #[verifier::type_invariant]
    spec fn wf(self) -> bool {
        0 <= self.start <= self.end <= self.array@.len()
    }

    /// The visible part of the buffer.
    pub open spec fn visible(&self) -> Seq<T> {
        self@.0.subrange(self@.1, self@.2)
    }

    /// Restricts a buffer so that only elements within the given range are
    /// visible.  An inverted range yields an empty view.
    pub fn new(sub_start: usize, sub_end: usize, array: Vec<T>) -> (r: Self)
        requires
            sub_start <= array@.len(),
            sub_end <= array@.len(),
        ensures
            r@.0 == array@,
            if sub_start <= sub_end {
                r@.1 == sub_start && r@.2 == sub_end
            } else {
                r@.1 == 0 && r@.2 == 0
            },
    {
        if sub_start > sub_end {
            Self { start: 0, end: 0, array }
        } else {
            Self { start: sub_start, end: sub_end, array }
        }
    }

    /// Returns a reference to the full underlying buffer.  There is no
    /// guarantee about the data outside the visible region.
    pub fn as_full_array(&self) -> (r: &Vec<T>)
        ensures
            r@ == self@.0,
    {
        &self.array
    }

    /// Converts `self` into the full underlying buffer.  There is no
    /// guarantee about the data outside the visible region.
    pub fn into_full_array(self) -> (r: Vec<T>)
        ensures
            r@ == self@.0,
    {
        self.array
    }

    /// Returns the visible part of the buffer as a slice.
    pub fn as_slice(&self) -> (r: &[T])
        ensures
            r@ == self.visible(),
    {
        proof {
            use_type_invariant(self);
        }
        &self.array.as_slice()[self.start..self.end]
    }

    /// Returns the index of the first element of the underlying buffer that
    /// is inside the visible region.
    pub fn start(&self) -> (r: usize)
        ensures
            r == self@.1,
    {
        self.start
    }

    /// Returns the index of the first element of the underlying buffer to
    /// the right of the visible region.
    pub fn end(&self) -> (r: usize)
        ensures
            r == self@.2,
    {
        self.end
    }

    /// Returns the length of the visible part.
    pub fn len(&self) -> (r: usize)
        ensures
            r == self@.2 - self@.1,
    {
        proof {
            use_type_invariant(self);
        }
        self.end - self.start
    }

    /// Returns whether the visible part is empty.
    pub fn is_empty(&self) -> (r: bool)
        ensures
            r == (self@.1 == self@.2),
    {
        proof {
            use_type_invariant(self);
        }
        self.end == self.start
    }

    /// Returns whether no part of the buffer is hidden.
    pub fn is_fully_visible(&self) -> (r: bool)
        ensures
            r == (self@.2 - self@.1 == self@.0.len()),
    {
        proof {
            use_type_invariant(self);
        }
        self.end - self.start == self.array.len()
    }

    /// Returns a reference to the element at the given index of the visible
    /// part, if it is within bounds.
    pub fn get(&self, index: usize) -> (r: Option<&T>)
        ensures
            match r {
                Some(v) => index < self@.2 - self@.1 && *v == self.visible()[index as int],
                None => index >= self@.2 - self@.1,
            },
    {
        proof {
            use_type_invariant(self);
        }
        if index < self.end - self.start {
            Some(&self.array[self.start + index])
        } else {
            None
        }
    }
}

/// An owning cursor over the visible part of a [`RestrictedArray`].
pub struct RestrictedArrayIntoIter<T> {
    items: Vec<T>,
    pos: usize,
    end: usize,
}

impl<T> View for RestrictedArrayIntoIter<T> {
    type V = (Seq<T>, int, int);

    closed spec fn view(&self) -> (Seq<T>, int, int) {
        (self.items@, self.pos as int, self.end as int)
    }
}

impl<T> RestrictedArrayIntoIter<T> {
    /// The cursor stays within the visible range.
    #[verifier::type_invariant]
    spec fn wf(self) -> bool {
        0 <= self.pos <= self.end <= self.items@.len()
    }
}

impl<T: Copy> RestrictedArrayIntoIter<T> {
    /// Starts a cursor over the visible part of the given view.
    pub fn new(section: RestrictedArray<T>) -> (r: Self)
        ensures
            r@.0 == section@.0,
            r@.1 == section@.1,
            r@.2 == section@.2,
    {
        proof {
            use_type_invariant(&section);
        }
        let start: usize = section.start();
        let end: usize = section.end();
        Self { items: section.into_full_array(), pos: start, end }
    }

    /// Returns the next visible element, advancing the cursor.
    pub fn next(&mut self) -> (r: Option<T>)
        ensures
            final(self)@.0 == old(self)@.0,
            final(self)@.2 == old(self)@.2,
            if old(self)@.1 < old(self)@.2 {
                r == Some::<T>(old(self)@.0[old(self)@.1]) && final(self)@.1 == old(self)@.1
                    + 1
            } else {
                r is None && final(self)@.1 == old(self)@.1
            },
    {
        proof {
            use_type_invariant(&*self);
        }
        if self.pos < self.end {
            let v: T = self.items[self.pos];
            self.pos = self.pos + 1;
            Some(v)
        } else {
            None
        }
    }

    /// Returns how many visible elements have not been yielded yet.
    pub fn len(&self) -> (r: usize)
        ensures
            r == self@.2 - self@.1,
    {
        proof {
            use_type_invariant(self);
        }
        self.end - self.pos
    }
}

} // verus!
