//! Ordered container of owned elements, supporting pushes, pops and
//! whole-list moves at either end.
//!
//! The tangle engine repeatedly extends an anchor's children from both
//! sides with groups of blocks gathered from different input streams, so
//! it needs a container whose contents can be moved to the front or the
//! back of another in one operation, preserving relative order.

use vstd::prelude::*;

verus! {

/// A list of owned elements. Its mathematical value is the sequence of
/// its elements, front first.
pub struct List<T> {
    elems: Vec<T>,
}

impl<T> View for List<T> {
    type V = Seq<T>;

    closed spec fn view(&self) -> Seq<T> {
        self.elems@
    }
}

impl<T> List<T> {
    /// Create an empty `List`.
    pub fn new() -> (r: Self)
        ensures
            r@ == Seq::<T>::empty(),
    {
        List { elems: Vec::new() }
    }

    /// Return the number of elements in the list.
    pub fn len(&self) -> (r: usize)
        ensures
            r == self@.len(),
    {
        self.elems.len()
    }

    /// Check if the list is empty.
    pub fn is_empty(&self) -> (r: bool)
        ensures
            r == (self@.len() == 0),
    {
        self.elems.len() == 0
    }

    /// Place `element` before all elements in the list.
    pub fn push_front(&mut self, element: T)
        ensures
            final(self)@ == seq![element] + old(self)@,
    {
        self.elems.insert(0, element);
        assert(self.elems@ =~= seq![element] + old(self)@);
    }

    /// Place `element` after all elements in the list.
    pub fn push_back(&mut self, element: T)
        ensures
            final(self)@ == old(self)@.push(element),
    {
        self.elems.push(element);
    }

    /// Remove the first element in the list and return it, if there is one.
    pub fn pop_front(&mut self) -> (r: Option<T>)
        ensures
            old(self)@.len() == 0 ==> r is None && final(self)@ == old(self)@,
            old(self)@.len() > 0 ==> r == Some(old(self)@[0]) && final(self)@ == old(self)@.drop_first(),
    {
        if self.elems.len() == 0 {
            None
        } else {
            let e = self.elems.remove(0);
            assert(self.elems@ =~= old(self)@.drop_first());
            Some(e)
        }
    }

    /// Remove the last element in the list and return it, if there is one.
    pub fn pop_back(&mut self) -> (r: Option<T>)
        ensures
            old(self)@.len() == 0 ==> r is None && final(self)@ == old(self)@,
            old(self)@.len() > 0 ==> r == Some(old(self)@.last()) && final(self)@ == old(self)@.drop_last(),
    {
        if self.elems.len() == 0 {
            None
        } else {
            let e = self.elems.pop().unwrap();
            assert(self.elems@ =~= old(self)@.drop_last());
            Some(e)
        }
    }

    /// Peek at the first element in the list without removing it, if there is one.
    pub fn front(&self) -> (r: Option<&T>)
        ensures
            self@.len() == 0 ==> r is None,
            self@.len() > 0 ==> (r matches Some(e) && *e == self@[0]),
    {
        if self.elems.len() == 0 {
            None
        } else {
            Some(&self.elems[0])
        }
    }

    /// Peek at the last element in the list without removing it, if there is one.
    pub fn back(&self) -> (r: Option<&T>)
        ensures
            self@.len() == 0 ==> r is None,
            self@.len() > 0 ==> (r matches Some(e) && *e == self@.last()),
    {
        if self.elems.len() == 0 {
            None
        } else {
            Some(&self.elems[self.elems.len() - 1])
        }
    }

    /// Place all elements of `other` before all elements in the list,
    /// keeping their relative order. `other` is left empty.
    pub fn append_front(&mut self, other: &mut List<T>)
        ensures
            final(self)@ == old(other)@ + old(self)@,
            final(other)@ == Seq::<T>::empty(),
    {
        other.elems.append(&mut self.elems);
        self.elems.append(&mut other.elems);
        assert(other.elems@ =~= Seq::<T>::empty());
        assert(self.elems@ =~= old(other)@ + old(self)@);
    }

    /// Place all elements of `other` after all elements in the list,
    /// keeping their relative order. `other` is left empty.
    pub fn append_back(&mut self, other: &mut List<T>)
        ensures
            final(self)@ == old(self)@ + old(other)@,
            final(other)@ == Seq::<T>::empty(),
    {
        self.elems.append(&mut other.elems);
        assert(other.elems@ =~= Seq::<T>::empty());
    }

    /// Borrow the element at position `i`, front first.
    pub fn get(&self, i: usize) -> (r: &T)
        requires
            i < self@.len(),
        ensures
            *r == self@[i as int],
    {
        &self.elems[i]
    }

    /// Walk the list, from either end.
    pub fn iter(&self) -> (r: Iter<'_, T>)
        ensures
            r.wf(),
            r.remaining() == self@,
    {
        let end = self.elems.len();
        let r = Iter { list: self, pos: 0, end };
        assert(r.remaining() =~= self@);
        r
    }

    /// Consume the list, returning its elements as a vector, front first.
    pub fn into_vec(self) -> (r: Vec<T>)
        ensures
            r@ == self@,
    {
        self.elems
    }

    /// Consume the list into a cursor that yields its elements from
    /// either end.
    pub fn into_iter(self) -> (r: IntoIter<T>)
        ensures
            r.remaining() == self@,
    {
        IntoIter { list: self }
    }
}

/// A consuming cursor over a `List`, yielding owned elements from
/// either end towards the middle.
pub struct IntoIter<T> {
    list: List<T>,
}

impl<T> IntoIter<T> {
    /// The elements not yet yielded, front first.
    pub closed spec fn remaining(&self) -> Seq<T> {
        self.list@
    }

    /// Yield the next element from the front, if any remain.
    pub fn next(&mut self) -> (r: Option<T>)
        ensures
            old(self).remaining().len() == 0 ==> r is None && final(self).remaining() == old(self).remaining(),
            old(self).remaining().len() > 0 ==> r == Some(old(self).remaining()[0])
                && final(self).remaining() == old(self).remaining().drop_first(),
    {
        self.list.pop_front()
    }

    /// Yield the next element from the back, if any remain.
    pub fn next_back(&mut self) -> (r: Option<T>)
        ensures
            old(self).remaining().len() == 0 ==> r is None && final(self).remaining() == old(self).remaining(),
            old(self).remaining().len() > 0 ==> r == Some(old(self).remaining().last())
                && final(self).remaining() == old(self).remaining().drop_last(),
    {
        self.list.pop_back()
    }

    /// How many elements remain.
    pub fn len(&self) -> (r: usize)
        ensures
            r == self.remaining().len(),
    {
        self.list.len()
    }
}

/// A cursor over a borrowed `List`, yielding references from either
/// end towards the middle.
pub struct Iter<'a, T> {
    list: &'a List<T>,
    pos: usize,
    end: usize,
}

impl<'a, T> Iter<'a, T> {
    /// The two cursors stay ordered and inside the list.
    pub closed spec fn wf(&self) -> bool {
        self.pos <= self.end <= self.list@.len()
    }

    /// The elements not yet yielded, front first.
    pub closed spec fn remaining(&self) -> Seq<T> {
        self.list@.subrange(self.pos as int, self.end as int)
    }

    /// Yield the next element from the front, if any remain.
    pub fn next(&mut self) -> (r: Option<&'a T>)
        requires
            old(self).wf(),
        ensures
            final(self).wf(),
            old(self).remaining().len() == 0 ==> r is None && final(self).remaining() == old(self).remaining(),
            old(self).remaining().len() > 0 ==> (r matches Some(e)
                && *e == old(self).remaining()[0]
                && final(self).remaining() == old(self).remaining().drop_first()),
    {
        if self.pos < self.end {
            let e = self.list.get(self.pos);
            self.pos = self.pos + 1;
            assert(self.remaining() =~= old(self).remaining().drop_first());
            Some(e)
        } else {
            assert(self.remaining().len() == 0);
            None
        }
    }

    /// Yield the next element from the back, if any remain.
    pub fn next_back(&mut self) -> (r: Option<&'a T>)
        requires
            old(self).wf(),
        ensures
            final(self).wf(),
            old(self).remaining().len() == 0 ==> r is None && final(self).remaining() == old(self).remaining(),
            old(self).remaining().len() > 0 ==> (r matches Some(e)
                && *e == old(self).remaining().last()
                && final(self).remaining() == old(self).remaining().drop_last()),
    {
        if self.pos < self.end {
            self.end = self.end - 1;
            let e = self.list.get(self.end);
            assert(self.remaining() =~= old(self).remaining().drop_last());
            Some(e)
        } else {
            assert(self.remaining().len() == 0);
            None
        }
    }

    /// How many elements remain.
    pub fn len(&self) -> (r: usize)
        requires
            self.wf(),
        ensures
            r == self.remaining().len(),
    {
        self.end - self.pos
    }
}

} // verus!
