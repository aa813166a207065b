//! A persistent singly linked list. A list is never changed: putting an
//! element in front of it gives a new list that shares all cells of the old one.

use std::rc::Rc;
use vstd::prelude::*;

verus! {

/// One cell of a list: an element and the cells behind it.
#[derive(Debug)]
struct Node<T> {
    elem: T,
    next: Option<Rc<Node<T>>>,
}

/// The elements of a chain of cells, front first.
spec fn chain_view<T>(link: Option<Rc<Node<T>>>) -> Seq<T>
    decreases link,
{
    match link {
        None => Seq::empty(),
        Some(node) => seq![node.elem] + chain_view(node.next),
    }
}

/// Another handle on the allocation behind `handle`.
///
/// Trusted, not proved: the body is a call of `std::rc::Rc::clone`, which
/// makes a new pointer to the same allocation and counts it. The contract
/// claims of it that the new handle holds the value that `handle` holds.
#[verifier::external_body]
fn share<T>(handle: &Rc<T>) -> (shared: Rc<T>)
    ensures
        shared == *handle,
{
    Rc::clone(handle)
}

/// A list of `T`, newest element first. Its view is the sequence of its
/// elements in the order in which they are handed out.
#[derive(Debug)]
pub struct List<T> {
    head: Option<Rc<Node<T>>>,
}

impl<T> View for List<T> {
    type V = Seq<T>;

    closed spec fn view(&self) -> Seq<T> {
        chain_view(self.head)
    }
}

impl<T> Clone for List<T> {
    /// A second handle on the same cells.
    fn clone(&self) -> (list: Self)
        ensures
            list@ == self@,
    {
        let head = match &self.head {
            None => None,
            Some(node) => Some(share(node)),
        };
        List { head }
    }
}

impl<T> List<T> {
    /// The empty list.
    pub fn new() -> (list: List<T>)
        ensures
            list@ == Seq::<T>::empty(),
    {
        List { head: None }
    }

    /// The list with `element` in front of the elements of `self`, which
    /// stays as it is.
    #[must_use]
    pub fn push(&self, element: T) -> (list: Self)
        ensures
            list@ == seq![element] + self@,
    {
        let next = match &self.head {
            None => None,
            Some(node) => Some(share(node)),
        };
        List { head: Some(Rc::new(Node { elem: element, next })) }
    }

    /// Hands out the elements from the newest to the oldest: the reverse of
    /// the order in which they were put in.
    pub fn iter(&self) -> (iter: ListIter<'_, T>)
        ensures
            iter@ == self@,
    {
        let list = match &self.head {
            None => None,
            Some(node) => Some(&**node),
        };
        ListIter { list }
    }
}

/// A walk along a list. Its view is what it has yet to hand out.
pub struct ListIter<'a, T> {
    list: Option<&'a Node<T>>,
}

impl<'a, T> View for ListIter<'a, T> {
    type V = Seq<T>;

    closed spec fn view(&self) -> Seq<T> {
        match self.list {
            None => Seq::empty(),
            Some(node) => seq![node.elem] + chain_view(node.next),
        }
    }
}

impl<'a, T: Copy> ListIter<'a, T> {
    /// The next element, or `None` when none is left; after that it is
    /// `None` for good.
    pub fn next(&mut self) -> (item: Option<T>)
        ensures
            old(self)@.len() == 0 ==> item.is_none() && final(self)@ == old(self)@,
            old(self)@.len() > 0 ==> item == Some(old(self)@[0]) && final(self)@ == old(
                self,
            )@.drop_first(),
    {
        match self.list {
            None => None,
            Some(node) => {
                self.list = match &node.next {
                    None => None,
                    Some(rest) => Some(&**rest),
                };
                assert((seq![node.elem] + chain_view(node.next)).drop_first() =~= chain_view(
                    node.next,
                ));
                Some(node.elem)
            },
        }
    }

    /// The elements that are left, front first.
    pub fn collect(self) -> (items: Vec<T>)
        ensures
            items@ == self@,
    {
        let ghost all = self@;
        let mut iter = self;
        let mut items: Vec<T> = Vec::new();
        loop
            invariant
                items@ + iter@ == all,
            ensures
                items@ == all,
            decreases iter@.len(),
        {
            let ghost remaining = iter@;
            match iter.next() {
                None => {
                    assert(items@ + Seq::<T>::empty() =~= items@);
                    break ;
                },
                Some(item) => {
                    assert(items@.push(item) + remaining.drop_first() =~= items@ + remaining);
                    items.push(item);
                },
            }
        }
        items
    }
}

} // verus!
