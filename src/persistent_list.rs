//! A persistent list: adding or removing at the head gives a new list that
//! shares the rest with the old one.
use std::sync::Arc;
use vstd::prelude::*;

verus! {

struct Node<T> {
    elem: T,
    next: Option<Arc<Node<T>>>,
}

spec fn values<T>(link: Option<Arc<Node<T>>>) -> Seq<T>
    decreases link,
{
    match link {
        None => Seq::empty(),
        Some(node) => seq![node.elem] + values(node.next),
    }
}

pub struct List<T> {
    head: Option<Arc<Node<T>>>,
}

impl<T> View for List<T> {
    type V = Seq<T>;

    /// The elements, head first.
    closed spec fn view(&self) -> Seq<T> {
        values(self.head)
    }
}

impl<T> List<T> {
    pub fn new() -> (r: Self)
        ensures
            r@ == Seq::<T>::empty(),
    {
        List { head: None }
    }

    /// A list with `elem` in front of this one's elements, which it shares.
    pub fn unshift(&self, elem: T) -> (r: List<T>)
        ensures
            r@ == seq![elem] + self@,
    {
        let next = match &self.head {
            None => None,
            Some(node) => Some(Arc::clone(node)),
        };
        List { head: Some(Arc::new(Node { elem, next })) }
    }

    /// The list without its head element (empty when this one is), sharing
    /// the rest.
    pub fn shift(&self) -> (r: List<T>)
        ensures
            self@.len() == 0 ==> r@.len() == 0,
            self@.len() > 0 ==> r@ == self@.drop_first(),
    {
        match &self.head {
            None => List { head: None },
            Some(node) => {
                assert(self@.drop_first() =~= values(node.next));
                match &node.next {
                    None => List { head: None },
                    Some(n) => List { head: Some(Arc::clone(n)) },
                }
            },
        }
    }

    /// The head element, if there is one.
    pub fn get_head(&self) -> (r: Option<&T>)
        ensures
            self@.len() == 0 ==> r.is_none(),
            self@.len() > 0 ==> r == Some(&self@[0]),
    {
        match &self.head {
            None => None,
            Some(node) => Some(&node.elem),
        }
    }

    /// The elements from the head on, by reference.
    pub fn iter(&self) -> (r: Iter<'_, T>)
        ensures
            r@ == self@,
    {
        match &self.head {
            None => Iter { next: None },
            Some(node) => Iter { next: Some(&**node) },
        }
    }
}

pub struct Iter<'a, T> {
    next: Option<&'a Node<T>>,
}

impl<'a, T> View for Iter<'a, T> {
    type V = Seq<T>;

    /// The elements not yet handed out, in order.
    closed spec fn view(&self) -> Seq<T> {
        match self.next {
            None => Seq::empty(),
            Some(node) => seq![node.elem] + values(node.next),
        }
    }
}

impl<'a, T> Iter<'a, T> {
    /// Hands out the next element, if any is left.
    pub fn next(&mut self) -> (r: Option<&'a T>)
        ensures
            old(self)@.len() == 0 ==> r.is_none() && final(self)@.len() == 0,
            old(self)@.len() > 0 ==> r == Some(&old(self)@[0]) && final(self)@ == old(self)@.drop_first(),
    {
        match self.next {
            None => None,
            Some(node) => {
                assert(old(self)@.drop_first() =~= values(node.next));
                self.next = match &node.next {
                    None => None,
                    Some(n) => Some(&**n),
                };
                Some(&node.elem)
            },
        }
    }
}

} // verus!
