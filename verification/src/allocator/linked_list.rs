//! A last-in, first-out list of block addresses.
use vstd::prelude::*;

verus! {

/// A list of addresses of free blocks. The head is the address pushed last.
///
/// The view is the sequence of addresses from the head on.
pub struct LinkedList {
    /// The addresses from the tail to the head.
    nodes: Vec<usize>,
}

impl View for LinkedList {
    type V = Seq<usize>;

    closed spec fn view(&self) -> Seq<usize> {
        Seq::new(self.nodes@.len(), |i: int| self.nodes@[self.nodes@.len() - 1 - i])
    }
}

impl Default for LinkedList {
    /// An empty list.
    fn default() -> (list: LinkedList)
        ensures
            list@ == Seq::<usize>::empty(),
    {
        LinkedList::new()
    }
}

impl LinkedList {
    /// An empty list.
    pub fn new() -> (list: LinkedList)
        ensures
            list@ == Seq::<usize>::empty(),
    {
        LinkedList { nodes: Vec::new() }
    }

    /// Whether the list holds no address.
    pub fn is_empty(&self) -> (r: bool)
        ensures
            r == (self@.len() == 0),
    {
        self.nodes.len() == 0
    }

    /// The number of addresses in the list.
    pub fn len(&self) -> (n: usize)
        ensures
            n == self@.len(),
    {
        self.nodes.len()
    }

    /// Makes `addr` the new head.
    pub fn push(&mut self, addr: usize)
        ensures
            final(self)@ == seq![addr] + old(self)@,
    {
        self.nodes.push(addr);
    }

    /// Removes the head and returns it; `None` on an empty list.
    pub fn pop(&mut self) -> (r: Option<usize>)
        ensures
            old(self)@.len() == 0 ==> r is None && final(self)@ == old(self)@,
            old(self)@.len() > 0 ==> r == Some(old(self)@[0]) && final(self)@ == old(
                self,
            )@.drop_first(),
    {
        self.nodes.pop()
    }

    /// The head, left in place; `None` on an empty list.
    pub fn peek(&self) -> (r: Option<usize>)
        ensures
            r == if self@.len() == 0 {
                None
            } else {
                Some(self@[0])
            },
    {
        let n = self.nodes.len();
        if n == 0 {
            None
        } else {
            Some(self.nodes[n - 1])
        }
    }

    /// The address at `index`, counted from the head.
    pub fn value(&self, index: usize) -> (r: usize)
        requires
            index < self@.len(),
        ensures
            r == self@[index as int],
    {
        self.nodes[self.nodes.len() - 1 - index]
    }

    /// Takes the address at `index`, counted from the head, out of the list.
    /// The addresses before and after it keep their order.
    pub fn remove(&mut self, index: usize) -> (r: usize)
        requires
            index < old(self)@.len(),
        ensures
            r == old(self)@[index as int],
            final(self)@ == old(self)@.remove(index as int),
    {
        let n = self.nodes.len();
        self.nodes.remove(n - 1 - index)
    }

    /// The addresses from the head on.
    pub fn iter(&self) -> (r: Vec<usize>)
        ensures
            r@ == self@,
    {
        let n = self.nodes.len();
        let mut out: Vec<usize> = Vec::new();
        let mut i: usize = 0;
        while i < n
            invariant
                n == self.nodes@.len(),
                i <= n,
                out@ == self@.subrange(0, i as int),
            decreases n - i,
        {
            out.push(self.nodes[n - 1 - i]);
            i = i + 1;
        }
        out
    }
}

} // verus!
