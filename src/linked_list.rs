//! Two lists that grow at either end: one that can reach its tail directly,
//! and one built of nested boxed cells.
use vstd::prelude::*;

verus! {

/// A list that can add at its head and at its tail.
pub struct List<T> {
    items: Vec<T>,
}

impl<T> View for List<T> {
    type V = Seq<T>;

    /// The elements, head first.
    closed spec fn view(&self) -> Seq<T> {
        self.items@
    }
}

impl<T> List<T> {
    pub fn new() -> (r: Self)
        ensures
            r@ == Seq::<T>::empty(),
    {
        List { items: Vec::new() }
    }

    /// Adds `data` at the head.
    pub fn push_front(&mut self, data: T)
        ensures
            final(self)@ == seq![data] + old(self)@,
    {
        self.items.insert(0, data);
        assert(final(self)@ =~= seq![data] + old(self)@);
    }

    /// Adds `data` at the tail.
    pub fn push_back(&mut self, data: T)
        ensures
            final(self)@ == old(self)@.push(data),
    {
        self.items.push(data);
    }
}

/// A list as nested cells: empty, or an element and the rest of the list.
pub struct LinkedList<T>(Option<(T, Box<LinkedList<T>>)>);

impl<T> LinkedList<T> {
    /// The elements, head first.
    pub closed spec fn values(&self) -> Seq<T>
        decreases self,
    {
        match &self.0 {
            None => Seq::empty(),
            Some((x, rest)) => seq![*x] + rest.values(),
        }
    }
}

impl<T> View for LinkedList<T> {
    type V = Seq<T>;

    open spec fn view(&self) -> Seq<T> {
        self.values()
    }
}

impl<T> LinkedList<T> {
    pub fn new() -> (r: Self)
        ensures
            r@ == Seq::<T>::empty(),
    {
        LinkedList(None)
    }

    /// Adds `data` in front, the old list becoming the rest.
    pub fn push_front(&mut self, data: T)
        ensures
            final(self)@ == seq![data] + old(self)@,
    {
        let mut prev_data = None;
        std::mem::swap(&mut prev_data, &mut self.0);
        self.0 = Some((data, Box::new(LinkedList(prev_data))));
    }

    /// Adds `data` at the end, in the innermost cell.
    pub fn push_back(&mut self, data: T)
        ensures
            final(self)@ == old(self)@.push(data),
        decreases old(self)@.len(),
    {
        let mut cell = None;
        std::mem::swap(&mut cell, &mut self.0);
        match cell {
            Some((x, mut rest)) => {
                assert(old(self)@ == seq![x] + rest@);
                rest.push_back(data);
                self.0 = Some((x, rest));
                assert(final(self)@ =~= old(self)@.push(data));
            },
            None => {
                self.push_front(data);
                assert(final(self)@ =~= old(self)@.push(data));
            },
        }
    }
}

} // verus!
