//! A persistent singly-linked list.  Every cell is reference-counted,
//! so distinct chains may share a tail; the view of a chain is the
//! sequence of its data values, front first.
use std::rc::Rc;
use vstd::prelude::*;

verus! {

/// One cell of a chain: a data value and an optional shared successor.
#[derive(Debug, Clone)]
pub struct Link<T> {
    data: T,
    next: Option<Rc<Link<T>>>,
}

/// A list of zero or more shared cells.
#[derive(Debug, Clone)]
pub struct Chain<T> {
    head: Option<Rc<Link<T>>>,
}

/// The sequence of data values reachable from `l`, front first.
pub closed spec fn seq_of_links<T>(l: Option<Rc<Link<T>>>) -> Seq<T>
    decreases l,
{
    match l {
        None => Seq::empty(),
        Some(rc) => seq![rc.data] + seq_of_links(rc.next),
    }
}

impl<T> View for Link<T> {
    type V = Seq<T>;

    closed spec fn view(&self) -> Seq<T> {
        seq![self.data] + seq_of_links(self.next)
    }
}

impl<T> View for Chain<T> {
    type V = Seq<T>;

    closed spec fn view(&self) -> Seq<T> {
        seq_of_links(self.head)
    }
}

/// Relies on `Rc::clone`: the clone is a handle to the same value.
#[verifier::external_body]
fn rc_clone<A>(rc: &Rc<A>) -> (r: Rc<A>)
    ensures
        r == *rc,
{
    rc.clone()
}

impl<T> Link<T> {
    /// A cell with no successor.
    pub fn new(data: T) -> (r: Self)
        ensures
            r@ == seq![data],
    {
        Link { data, next: None }
    }

    /// A cell in front of `next`.
    pub fn init(data: T, next: Option<Rc<Link<T>>>) -> (r: Self)
        ensures
            r@ == seq![data] + seq_of_links(next),
    {
        Link { data, next }
    }

    /// Mutable access to the successor.
    pub fn next_mut(&mut self) -> (r: &mut Option<Rc<Link<T>>>)
        ensures
            seq_of_links(*r) == old(self)@.drop_first(),
            final(self)@ == seq![old(self)@.first()] + seq_of_links(*final(r)),
    {
        &mut self.next
    }

    /// The successor cell, if any.
    pub fn next(&self) -> (r: Option<&Rc<Link<T>>>)
        ensures
            r is Some <==> self@.len() > 1,
            r matches Some(l) ==> (*l)@ == self@.drop_first(),
    {
        self.next.as_ref()
    }

    /// Mutable access to the data value.
    pub fn data_mut(&mut self) -> (r: &mut T)
        ensures
            *r == old(self)@.first(),
            final(self)@ == old(self)@.update(0, *final(r)),
    {
        &mut self.data
    }

    /// The data value.
    pub fn data(&self) -> (r: &T)
        ensures
            *r == self@.first(),
    {
        &self.data
    }

    /// Overwrite the data value.
    pub fn set_data(&mut self, data: T)
        ensures
            final(self)@ == old(self)@.update(0, data),
    {
        self.data = data;
    }

    /// Overwrite the successor.
    pub fn set_next(&mut self, next: Option<Rc<Link<T>>>)
        ensures
            final(self)@ == seq![old(self)@.first()] + seq_of_links(next),
    {
        self.next = next;
    }
}

impl<T> Chain<T> {
    /// The empty chain.
    pub fn new() -> (r: Self)
        ensures
            r@ == Seq::<T>::empty(),
    {
        Chain { head: None }
    }

    /// A chain of exactly one value.
    pub fn init(data: T) -> (r: Self)
        ensures
            r@ == seq![data],
    {
        Chain { head: Some(Rc::new(Link::new(data))) }
    }

    /// Push a value on the front; the former cells are kept as the tail.
    pub fn prepend(&mut self, data: T)
        ensures
            final(self)@ == seq![data] + old(self)@,
    {
        let rest = self.head.take();
        self.head = Some(Rc::new(Link::init(data, rest)));
    }

    /// The chain without its first value; shares the remaining cells.
    pub fn tail(&self) -> (r: Chain<T>)
        ensures
            self@.len() == 0 ==> r@ == Seq::<T>::empty(),
            self@.len() > 0 ==> r@ == self@.drop_first(),
    {
        match &self.head {
            None => Chain { head: None },
            Some(rc) => match &rc.next {
                None => Chain { head: None },
                Some(nx) => Chain { head: Some(rc_clone(nx)) },
            },
        }
    }

    /// The first value, if any.
    pub fn head(&self) -> (r: Option<&T>)
        ensures
            r is Some <==> self@.len() > 0,
            r matches Some(d) ==> *d == self@.first(),
    {
        match &self.head {
            None => None,
            Some(rc) => Some(&rc.data),
        }
    }

    /// A cursor over the values, front first.
    pub fn iter(&self) -> (r: ChainIter<'_, T>)
        ensures
            r.remaining() == self@,
    {
        match &self.head {
            None => ChainIter { next: None },
            Some(rc) => ChainIter { next: Some(&**rc) },
        }
    }

    /// The number of values in the chain.
    pub fn len(&self) -> (r: usize)
        requires
            self@.len() <= usize::MAX,
        ensures
            r == self@.len(),
    {
        let mut cur: &Option<Rc<Link<T>>> = &self.head;
        let mut n: usize = 0;
        loop
            invariant
                n + seq_of_links(*cur).len() == self@.len(),
                self@.len() <= usize::MAX,
            decreases seq_of_links(*cur).len(),
        {
            match cur {
                None => {
                    return n;
                },
                Some(rc) => {
                    n = n + 1;
                    cur = &rc.next;
                },
            }
        }
    }

    /// Mutable access to the first cell.
    pub fn head_mut(&mut self) -> (r: &mut Option<Rc<Link<T>>>)
        ensures
            seq_of_links(*r) == old(self)@,
            final(self)@ == seq_of_links(*final(r)),
    {
        &mut self.head
    }

    /// Replace the whole chain by the cells of `head`.
    pub fn set_head(&mut self, head: Option<Rc<Link<T>>>)
        ensures
            final(self)@ == seq_of_links(head),
    {
        self.head = head;
    }
}

/// A cursor over a chain's values, front first.
pub struct ChainIter<'a, T> {
    next: Option<&'a Link<T>>,
}

impl<'a, T> ChainIter<'a, T> {
    /// The values not yet handed out.
    pub closed spec fn remaining(self) -> Seq<T> {
        match self.next {
            None => Seq::empty(),
            Some(l) => l@,
        }
    }

    /// The next value, or `None` once the chain is exhausted.
    pub fn next(&mut self) -> (r: Option<&'a T>)
        ensures
            old(self).remaining().len() == 0 ==> r is None && final(self).remaining()
                == old(self).remaining(),
            old(self).remaining().len() > 0 ==> (r matches Some(d) && *d == old(
                self,
            ).remaining().first() && final(self).remaining() == old(self).remaining().drop_first()),
    {
        match self.next {
            None => None,
            Some(link) => {
                let r = &link.data;
                self.next = match &link.next {
                    None => None,
                    Some(rc) => Some(&**rc),
                };
                Some(r)
            },
        }
    }
}

} // verus!
