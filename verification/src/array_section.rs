//! A buffer where only a section of the data may be viewed.

use vstd::prelude::*;

verus! {

/// A vector where only a section of the data may be viewed, as the other
/// data may not uphold some invariant.
///
/// Indexing into the section indexes only into the visible part.
pub struct ArraySection<T> {
    start: usize,
    end: usize,
    array: Vec<T>,
}

impl<T> View for ArraySection<T> {
    type V = (Seq<T>, int, int);

    closed spec fn view(&self) -> (Seq<T>, int, int) {
        (self.array@, self.start as int, self.end as int)
    }
}

impl<T> ArraySection<T> {
    /// The visible range lies within the buffer.
    #[verifier::type_invariant]
    spec fn wf(self) -> bool {
        0 <= self.start <= self.end <= self.array@.len()
    }

    /// The visible part of the buffer.
    pub open spec fn visible(&self) -> Seq<T> {
        self@.0.subrange(self@.1, self@.2)
    }

    /// Restricts a buffer so that only elements within the given range are
    /// visible.  An inverted range yields an empty section.
    pub fn new(array: Vec<T>, sub_start: usize, sub_end: usize) -> (r: Self)
        requires
            sub_start <= array@.len(),
            sub_end <= array@.len(),
        ensures
            r@.0 == array@,
            if sub_start <= sub_end {
                r@.1 == sub_start && r@.2 == sub_end
            } else {
                r@.1 == 0 && r@.2 == 0
            },
    {
        if sub_start > sub_end {
            Self { start: 0, end: 0, array }
        } else {
            Self { start: sub_start, end: sub_end, array }
        }
    }

    /// Returns the first index of the underlying buffer that is part of the
    /// section.
    pub fn start(&self) -> (r: usize)
        ensures
            r == self@.1,
    {
        self.start
    }

    /// Returns the first index of the underlying buffer that is outside the
    /// section, to the right.
    pub fn end(&self) -> (r: usize)
        ensures
            r == self@.2,
    {
        self.end
    }

    /// Returns a reference to the full underlying buffer if the section
    /// covers all of it.
    pub fn try_as_full_array(&self) -> (r: Option<&Vec<T>>)
        ensures
            match r {
                Some(a) => a@ == self@.0 && self.visible() =~= self@.0,
                None => self@.2 - self@.1 != self@.0.len(),
            },
    {
        proof {
            use_type_invariant(self);
        }
        if self.end - self.start == self.array.len() {
            proof {
                assert(self.visible() =~= self@.0);
            }
            Some(&self.array)
        } else {
            None
        }
    }

    /// Returns a reference to the full underlying buffer.  There is no
    /// guarantee about the data outside the visible section.
    pub fn as_full_array(&self) -> (r: &Vec<T>)
        ensures
            r@ == self@.0,
    {
        &self.array
    }

    /// Converts `self` into the full underlying buffer.  There is no
    /// guarantee about the data outside the visible section.
    pub fn into_full_array(self) -> (r: Vec<T>)
        ensures
            r@ == self@.0,
    {
        self.array
    }

    /// Returns the visible section as a slice.
    pub fn as_slice(&self) -> (r: &[T])
        ensures
            r@ == self.visible(),
    {
        proof {
            use_type_invariant(self);
        }
        &self.array.as_slice()[self.start..self.end]
    }

    /// Returns the length of the visible section.
    pub fn len(&self) -> (r: usize)
        ensures
            r == self@.2 - self@.1,
    {
        proof {
            use_type_invariant(self);
        }
        self.end - self.start
    }

    /// Returns whether the visible section is empty.
    pub fn is_empty(&self) -> (r: bool)
        ensures
            r == (self@.1 == self@.2),
    {
        proof {
            use_type_invariant(self);
        }
        self.end == self.start
    }

    /// Returns whether the section covers the entire underlying buffer.
    pub fn section_is_full_array(&self) -> (r: bool)
        ensures
            r == (self@.2 - self@.1 == self@.0.len()),
    {
        proof {
            use_type_invariant(self);
        }
        self.end - self.start == self.array.len()
    }

    /// Returns a reference to the element at the given index of the visible
    /// section, if it is within bounds.
    pub fn get(&self, index: usize) -> (r: Option<&T>)
        ensures
            match r {
                Some(v) => index < self@.2 - self@.1 && *v == self.visible()[index as int],
                None => index >= self@.2 - self@.1,
            },
    {
        proof {
            use_type_invariant(self);
        }
        if index < self.end - self.start {
            Some(&self.array[self.start + index])
        } else {
            None
        }
    }
}

impl<T: Copy> ArraySection<T> {
    /// Returns a cursor over the visible section.
    pub fn iter(&self) -> (r: ArraySectionIter<T>)
        ensures
            r@.0 == self.visible(),
            r@.1 == 0,
    {
        proof {
            use_type_invariant(self);
        }
        let mut items: Vec<T> = Vec::new();
        let mut i: usize = self.start;
        while i < self.end
            invariant
                self.wf(),
                self@.1 <= i <= self@.2,
                items@.len() == i - self@.1,
                forall|k: int| 0 <= k < items@.len() ==> #[trigger] items@[k] == self@.0[
                    self@.1 + k],
            decreases self.end - i,
        {
            items.push(self.array[i]);
            i += 1;
        }
        proof {
            assert(items@ =~= self.visible());
        }
        ArraySectionIter { items, pos: 0 }
    }

    /// Converts `self` into an owning cursor over the visible section.
    pub fn into_iter(self) -> (r: ArraySectionIntoIter<T>)
        ensures
            r@.0 == self@.0,
            r@.1 == self@.1,
            r@.2 == self@.2,
    {
        proof {
            use_type_invariant(&self);
        }
        let start: usize = self.start;
        let end: usize = self.end;
        ArraySectionIntoIter { items: self.array, pos: start, end }
    }
}

/// A cursor over the visible section of an [`ArraySection`].
pub struct ArraySectionIter<T> {
    items: Vec<T>,
    pos: usize,
}

impl<T> View for ArraySectionIter<T> {
    type V = (Seq<T>, int);

    closed spec fn view(&self) -> (Seq<T>, int) {
        (self.items@, self.pos as int)
    }
}

impl<T> ArraySectionIter<T> {
    /// The cursor stays within the items.
    #[verifier::type_invariant]
    spec fn wf(self) -> bool {
        self.pos <= self.items@.len()
    }
}

impl<T: Copy> ArraySectionIter<T> {
    /// Returns the next visible element, advancing the cursor.
    pub fn next(&mut self) -> (r: Option<T>)
        ensures
            final(self)@.0 == old(self)@.0,
            if old(self)@.1 < old(self)@.0.len() {
                r == Some::<T>(old(self)@.0[old(self)@.1]) && final(self)@.1 == old(self)@.1
                    + 1
            } else {
                r is None && final(self)@.1 == old(self)@.1
            },
    {
        proof {
            use_type_invariant(&*self);
        }
        if self.pos < self.items.len() {
            let v: T = self.items[self.pos];
            self.pos = self.pos + 1;
            Some(v)
        } else {
            None
        }
    }

    /// Returns how many visible elements have not been yielded yet.
    pub fn len(&self) -> (r: usize)
        ensures
            r == self@.0.len() - self@.1,
    {
        proof {
            use_type_invariant(self);
        }
        self.items.len() - self.pos
    }
}

/// An owning cursor over the visible section of an [`ArraySection`].
pub struct ArraySectionIntoIter<T> {
    items: Vec<T>,
    pos: usize,
    end: usize,
}

impl<T> View for ArraySectionIntoIter<T> {
    type V = (Seq<T>, int, int);

    closed spec fn view(&self) -> (Seq<T>, int, int) {
        (self.items@, self.pos as int, self.end as int)
    }
}

impl<T> ArraySectionIntoIter<T> {
    /// The cursor stays within the visible range.
    #[verifier::type_invariant]
    spec fn wf(self) -> bool {
        0 <= self.pos <= self.end <= self.items@.len()
    }
}

impl<T: Copy> ArraySectionIntoIter<T> {
    /// Returns the next visible element, advancing the cursor.
    pub fn next(&mut self) -> (r: Option<T>)
        ensures
            final(self)@.0 == old(self)@.0,
            final(self)@.2 == old(self)@.2,
            if old(self)@.1 < old(self)@.2 {
                r == Some::<T>(old(self)@.0[old(self)@.1]) && final(self)@.1 == old(self)@.1
                    + 1
            } else {
                r is None && final(self)@.1 == old(self)@.1
            },
    {
        proof {
            use_type_invariant(&*self);
        }
        if self.pos < self.end {
            let v: T = self.items[self.pos];
            self.pos = self.pos + 1;
            Some(v)
        } else {
            None
        }
    }

    /// Returns how many visible elements have not been yielded yet.
    pub fn len(&self) -> (r: usize)
        ensures
            r == self@.2 - self@.1,
    {
        proof {
            use_type_invariant(self);
        }
        self.end - self.pos
    }
}

/// Returned when a conversion into a full buffer is asked of a section that
/// does not cover its whole buffer.  Carries the section it was built from.
pub struct TryFromArraySectionError<T>(pub ArraySection<T>);

impl<T> TryFromArraySectionError<T> {
    /// Returns the section the error was built from.
    pub fn array_section(self) -> (r: ArraySection<T>)
        ensures
            r@ == self.0@,
    {
        self.0
    }
}

} // verus!
