//! A first-in first-out list of strings, with a count of its elements.
use vstd::prelude::*;

verus! {

pub struct LinkedList {
    /// The elements, front first.
    pub items: Vec<String>,
    /// The number of elements.
    pub length: u64,
}

impl View for LinkedList {
    type V = Seq<Seq<char>>;

    /// The strings, oldest first.
    open spec fn view(&self) -> Seq<Seq<char>> {
        self.items@.map_values(|s: String| s@)
    }
}

impl LinkedList {
    /// `length` counts the elements.
    pub open spec fn wf(&self) -> bool {
        self.length == self.items@.len()
    }

    pub fn new() -> (r: LinkedList)
        ensures
            r.wf(),
            r@ == Seq::<Seq<char>>::empty(),
            r.length == 0,
    {
        let r = LinkedList { items: Vec::new(), length: 0 };
        assert(r@ =~= Seq::<Seq<char>>::empty());
        r
    }

    /// Adds `value` at the end.
    pub fn append(&mut self, value: String)
        requires
            old(self).wf(),
            old(self).length < u64::MAX,
        ensures
            final(self).wf(),
            final(self)@ == old(self)@.push(value@),
            final(self).length == old(self).length + 1,
    {
        self.items.push(value);
        self.length = self.length + 1;
        assert(self@ =~= old(self)@.push(value@));
    }

    /// Takes the oldest string off, if there is one.
    pub fn pop(&mut self) -> (r: Option<String>)
        requires
            old(self).wf(),
        ensures
            final(self).wf(),
            old(self)@.len() == 0 ==> r.is_none() && final(self)@ == old(self)@,
            old(self)@.len() > 0 ==> r.is_some() && r.unwrap()@ == old(self)@[0]
                && final(self)@ == old(self)@.drop_first(),
    {
        if self.items.len() == 0 {
            return None;
        }
        let r = self.items.remove(0);
        self.length = self.length - 1;
        assert(self@ =~= old(self)@.drop_first());
        Some(r)
    }
}

} // verus!
