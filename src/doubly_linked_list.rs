//! A list with insertion and removal at both ends, and a count of its elements.
use vstd::prelude::*;

verus! {

pub struct LinkedList<T> {
    /// The elements, front first.
    pub items: Vec<T>,
    /// The number of elements.
    pub length: u64,
}

impl<T> View for LinkedList<T> {
    type V = Seq<T>;

    /// The elements, front first.
    open spec fn view(&self) -> Seq<T> {
        self.items@
    }
}

impl<T> LinkedList<T> {
    /// `length` counts the elements.
    pub open spec fn wf(&self) -> bool {
        self.length == self.items@.len()
    }

    pub fn new() -> (r: LinkedList<T>)
        ensures
            r.wf(),
            r@ == Seq::<T>::empty(),
            r.length == 0,
    {
        LinkedList { items: Vec::new(), length: 0 }
    }

    /// Adds `value` at the back.
    pub fn push_back(&mut self, value: T)
        requires
            old(self).wf(),
            old(self).length < u64::MAX,
        ensures
            final(self).wf(),
            final(self)@ == old(self)@.push(value),
            final(self).length == old(self).length + 1,
    {
        self.items.push(value);
        self.length = self.length + 1;
    }

    /// Adds `value` at the front.
    pub fn push_front(&mut self, value: T)
        requires
            old(self).wf(),
            old(self).length < u64::MAX,
        ensures
            final(self).wf(),
            final(self)@ == seq![value] + old(self)@,
            final(self).length == old(self).length + 1,
    {
        self.items.insert(0, value);
        self.length = self.length + 1;
        assert(self@ =~= seq![value] + old(self)@);
    }

    /// Takes the back element off, if there is one.
    pub fn pop_back(&mut self) -> (r: Option<T>)
        requires
            old(self).wf(),
        ensures
            final(self).wf(),
            old(self)@.len() == 0 ==> r.is_none() && final(self)@ == old(self)@,
            old(self)@.len() > 0 ==> r == Some(old(self)@.last()) && final(self)@ == old(self)@.drop_last(),
    {
        let r = self.items.pop();
        if r.is_some() {
            self.length = self.length - 1;
        }
        r
    }

    /// Takes the front element off, if there is one.
    pub fn pop_front(&mut self) -> (r: Option<T>)
        requires
            old(self).wf(),
        ensures
            final(self).wf(),
            old(self)@.len() == 0 ==> r.is_none() && final(self)@ == old(self)@,
            old(self)@.len() > 0 ==> r == Some(old(self)@[0]) && final(self)@ == old(self)@.drop_first(),
    {
        if self.items.len() == 0 {
            return None;
        }
        let r = self.items.remove(0);
        self.length = self.length - 1;
        assert(self@ =~= old(self)@.drop_first());
        Some(r)
    }
}

} // verus!
