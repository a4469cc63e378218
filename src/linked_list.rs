use vstd::prelude::*;

verus! {

/// A singly-ordered sub-list: a finite sequence of elements with positional
/// insertion and removal. Its mathematical model is `Seq<T>`.
pub struct LinkedList<T> {
    items: Vec<T>,
}

impl<T> View for LinkedList<T> {
    type V = Seq<T>;

    closed spec fn view(&self) -> Seq<T> {
        self.items@
    }
}

impl<T> LinkedList<T> {
    pub fn new() -> (r: Self)
        ensures
            r@ == Seq::<T>::empty(),
    {
        LinkedList { items: Vec::new() }
    }

    pub fn clear(&mut self)
        ensures
            final(self)@ == Seq::<T>::empty(),
    {
        self.items = Vec::new();
    }

    pub fn len(&self) -> (r: usize)
        ensures
            r == self@.len(),
    {
        self.items.len()
    }

    pub fn is_empty(&self) -> (r: bool)
        ensures
            r == (self@.len() == 0),
    {
        self.items.len() == 0
    }

    pub fn push_front(&mut self, elem: T)
        ensures
            final(self)@ == seq![elem] + old(self)@,
    {
        self.items.insert(0, elem);
        assert(self@ =~= seq![elem] + old(self)@);
    }

    pub fn push_back(&mut self, elem: T)
        ensures
            final(self)@ == old(self)@.push(elem),
    {
        self.items.push(elem);
    }

    pub fn pop_front(&mut self) -> (r: Option<T>)
        ensures
            old(self)@.len() == 0 ==> r.is_none() && final(self)@ == old(self)@,
            old(self)@.len() > 0 ==> r == Some(old(self)@[0]) && final(self)@ == old(self)@.drop_first(),
    {
        if self.items.len() == 0 {
            None
        } else {
            let x = self.items.remove(0);
            assert(self@ =~= old(self)@.drop_first());
            Some(x)
        }
    }

    pub fn pop_back(&mut self) -> (r: Option<T>)
        ensures
            old(self)@.len() == 0 ==> r.is_none() && final(self)@ == old(self)@,
            old(self)@.len() > 0 ==> r == Some(old(self)@.last()) && final(self)@ == old(self)@.drop_last(),
    {
        self.items.pop()
    }

    /// Inserts `elem` so that it stands at offset `at` afterwards.
    pub fn insert(&mut self, elem: T, at: usize)
        requires
            at <= old(self)@.len(),
        ensures
            final(self)@ == old(self)@.insert(at as int, elem),
    {
        self.items.insert(at, elem);
    }

    /// Removes and returns the element at offset `at`.
    pub fn pop(&mut self, at: usize) -> (r: Option<T>)
        requires
            at < old(self)@.len(),
        ensures
            r == Some(old(self)@[at as int]),
            final(self)@ == old(self)@.remove(at as int),
    {
        Some(self.items.remove(at))
    }

    pub fn get(&self, at: usize) -> (r: Option<&T>)
        ensures
            at < self@.len() ==> r == Some(&self@[at as int]),
            at >= self@.len() ==> r.is_none(),
    {
        if at < self.items.len() {
            Some(&self.items[at])
        } else {
            None
        }
    }

    pub fn get_mut(&mut self, at: usize) -> (r: &mut T)
        requires
            at < old(self)@.len(),
        ensures
            *r == old(self)@[at as int],
            final(self)@ == old(self)@.update(at as int, *final(r)),
    {
        &mut self.items[at]
    }

    /// A cursor over the elements, front to back.
    pub fn iter(&self) -> (r: Iter<'_, T>)
        ensures
            r.list == self,
            r.pos == 0,
    {
        Iter { list: self, pos: 0 }
    }

    pub fn into_iter(self) -> (r: IntoIter<T>)
        ensures
            r.list@ == self@,
    {
        IntoIter { list: self }
    }
}

impl<T: Copy> LinkedList<T> {
    /// An independent copy holding the same elements.
    pub fn clone(&self) -> (r: Self)
        ensures
            r@ == self@,
    {
        let mut items: Vec<T> = Vec::new();
        let mut i: usize = 0;
        while i < self.items.len()
            invariant
                i <= self.items@.len(),
                items@ == self.items@.take(i as int),
            decreases self.items@.len() - i,
        {
            items.push(self.items[i]);
            i = i + 1;
            assert(items@ =~= self.items@.take(i as int));
        }
        assert(self.items@.take(i as int) =~= self.items@);
        LinkedList { items }
    }
}

/// A front-to-back cursor that lends out each element in turn.
pub struct Iter<'a, T> {
    pub list: &'a LinkedList<T>,
    pub pos: usize,
}

impl<'a, T> Iter<'a, T> {
    pub fn next(&mut self) -> (r: Option<&'a T>)
        ensures
            final(self).list == old(self).list,
            old(self).pos < old(self).list@.len() ==> r == Some(&old(self).list@[old(self).pos as int])
                && final(self).pos == old(self).pos + 1,
            old(self).pos >= old(self).list@.len() ==> r.is_none() && final(self).pos == old(self).pos,
    {
        if self.pos < self.list.items.len() {
            let r = &self.list.items[self.pos];
            self.pos = self.pos + 1;
            Some(r)
        } else {
            None
        }
    }
}

/// An owning cursor that hands out the elements front to back.
pub struct IntoIter<T> {
    pub list: LinkedList<T>,
}

impl<T> IntoIter<T> {
    pub fn next(&mut self) -> (r: Option<T>)
        ensures
            old(self).list@.len() == 0 ==> r.is_none() && final(self).list@ == old(self).list@,
            old(self).list@.len() > 0 ==> r == Some(old(self).list@[0])
                && final(self).list@ == old(self).list@.drop_first(),
    {
        self.list.pop_front()
    }
}

} // verus!
