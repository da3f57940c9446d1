//! A stack of integers as a singly linked list of boxed nodes.
use vstd::prelude::*;

verus! {

enum Link {
    Nil,
    Cons(Box<Node>),
}

struct Node {
    val: i32,
    next: Link,
}

impl Link {
    /// The values from this link on, top first.
    closed spec fn values(&self) -> Seq<i32>
        decreases self,
    {
        match self {
            Link::Nil => Seq::empty(),
            Link::Cons(node) => seq![node.val] + node.next.values(),
        }
    }
}

pub struct List {
    head: Link,
}

impl View for List {
    type V = Seq<i32>;

    /// The values, top first.
    closed spec fn view(&self) -> Seq<i32> {
        self.head.values()
    }
}

impl List {
    pub fn new() -> (r: Self)
        ensures
            r@ == Seq::<i32>::empty(),
    {
        List { head: Link::Nil }
    }

    /// Puts `val` on top.
    pub fn push(&mut self, val: i32)
        ensures
            final(self)@ == seq![val] + old(self)@,
    {
        let mut next = Link::Nil;
        std::mem::swap(&mut next, &mut self.head);
        self.head = Link::Cons(Box::new(Node { val, next }));
    }

    /// Takes the top value off, if there is one.
    pub fn pop(&mut self) -> (r: Option<i32>)
        ensures
            old(self)@.len() == 0 ==> r.is_none() && final(self)@ == old(self)@,
            old(self)@.len() > 0 ==> r == Some(old(self)@[0]) && final(self)@ == old(self)@.drop_first(),
    {
        let mut head = Link::Nil;
        std::mem::swap(&mut head, &mut self.head);
        match head {
            Link::Nil => None,
            Link::Cons(node) => {
                let node = *node;
                self.head = node.next;
                assert(old(self)@ == seq![node.val] + self@);
                assert(old(self)@.drop_first() =~= self@);
                Some(node.val)
            },
        }
    }
}

} // verus!
