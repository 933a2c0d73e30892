use vstd::prelude::*;

verus! {

/// One link of a singly linked chain: an element together with exclusive
/// ownership of the rest of the chain.
#[derive(Debug, PartialEq)]
pub struct Node<T> {
    pub data: T,
    pub next: Option<Box<Node<T>>>,
}

impl<T> Node<T> {
    /// The elements hanging off an optional node, front first.
    pub open spec fn opt_seq(node: Option<Box<Node<T>>>) -> Seq<T>
        decreases node,
    {
        match node {
            None => Seq::empty(),
            Some(n) => seq![n.data] + Node::opt_seq(n.next),
        }
    }

    pub fn new(data: T, next: Option<Box<Node<T>>>) -> (r: Self)
        ensures
            r == (Node { data, next }),
    {
        Node { data, next }
    }
}

/// A singly linked list. Its view is the sequence of elements from the
/// head (most recently pushed) to the tail.
#[derive(Debug, PartialEq)]
pub struct SingleLinkedList<T> {
    pub head: Option<Box<Node<T>>>,
}

impl<T> View for SingleLinkedList<T> {
    type V = Seq<T>;

    open spec fn view(&self) -> Seq<T> {
        Node::opt_seq(self.head)
    }
}

impl<T> SingleLinkedList<T> {
    pub fn is_empty(&self) -> (r: bool)
        ensures
            r == (self@.len() == 0),
    {
        self.head.is_none()
    }

    pub fn len(&self) -> (r: usize)
        requires
            self@.len() <= usize::MAX,
        ensures
            r == self@.len(),
    {
        let mut next: &Option<Box<Node<T>>> = &self.head;
        let mut count: usize = 0;
        while next.is_some()
            invariant
                self@.len() <= usize::MAX,
                count + Node::opt_seq(*next).len() == self@.len(),
            decreases Node::opt_seq(*next).len(),
        {
            let n = next.as_ref().unwrap();
            next = &n.next;
            count = count + 1;
        }
        count
    }

    /// Prepends `element`; it becomes the new head.
    pub fn push(&mut self, element: T)
        ensures
            final(self)@ == seq![element] + old(self)@,
    {
        self.head = Some(Box::new(Node::new(element, self.head.take())));
    }

    /// Removes and returns the head element, or `None` on an empty list.
    pub fn pop(&mut self) -> (r: Option<T>)
        ensures
            old(self)@.len() == 0 ==> r is None && final(self)@ == old(self)@,
            old(self)@.len() > 0 ==> r == Some(old(self)@[0]) && final(self)@ == old(self)@.drop_first(),
    {
        match self.head.take() {
            Some(head) => {
                let h = *head;
                self.head = h.next;
                Some(h.data)
            }
            None => None,
        }
    }

    /// Returns a reference to the head element without removing it.
    pub fn peek(&self) -> (r: Option<&T>)
        ensures
            self@.len() == 0 ==> r is None,
            self@.len() > 0 ==> (r matches Some(x) && *x == self@[0]),
    {
        match &self.head {
            Some(head) => Some(&head.data),
            None => None,
        }
    }

    /// Consumes the list and returns one holding the same elements in
    /// reverse order.
    pub fn rev(self) -> (r: SingleLinkedList<T>)
        ensures
            r@ == self@.reverse(),
    {
        let ghost orig: Seq<T> = self@;
        let ghost mut k: int = 0;
        let mut reversed: SingleLinkedList<T> = SingleLinkedList { head: None };
        let mut c = self.head;
        while c.is_some()
            invariant
                0 <= k <= orig.len(),
                Node::opt_seq(c) == orig.skip(k),
                reversed@ == orig.take(k).reverse(),
            decreases orig.len() - k,
        {
            let ghost cg = c;
            let e = c.unwrap();
            let n = *e;
            proof {
                assert(cg == Some(e));
                assert(Node::opt_seq(cg) == seq![n.data] + Node::opt_seq(n.next));
                assert(n.data == orig.skip(k)[0]);
                let rest = Node::opt_seq(n.next);
                assert forall|i: int| 0 <= i < rest.len() implies rest[i] == orig[k + 1 + i] by {
                    assert(rest[i] == (seq![n.data] + rest)[i + 1]);
                    assert((seq![n.data] + rest)[i + 1] == orig.skip(k)[i + 1]);
                }
                assert(rest =~= orig.skip(k + 1));
            }
            reversed.push(n.data);
            c = n.next;
            proof {
                assert(seq![orig[k]] + orig.take(k).reverse() =~= orig.take(k + 1).reverse());
                k = k + 1;
            }
        }
        proof {
            assert(orig.skip(k).len() == 0);
            assert(orig.take(k) =~= orig);
        }
        reversed
    }
}

/// The view of a list built by pushing the elements of `s` in order onto an
/// empty list: `push` prepends, so each element stands in front of the ones
/// pushed before it.
pub open spec fn pushed_view<T>(s: Seq<T>) -> Seq<T>
    decreases s.len(),
{
    if s.len() == 0 {
        Seq::empty()
    } else {
        seq![s.last()] + pushed_view(s.drop_last())
    }
}

/// Law: pushing the elements of `s` in order onto an empty list and then
/// popping `s.len()` times returns the elements in exact reverse order of
/// the pushes, and leaves the list empty. After the pushes the view is
/// `pushed_view(s)`; since `pop` returns the front of the view and drops
/// it, the pops return `s.reverse()` element by element and end on the
/// empty view.
pub proof fn lemma_push_pop_lifo<T>(s: Seq<T>)
    ensures
        pushed_view(s) == s.reverse(),
    decreases s.len(),
{
    if s.len() == 0 {
        assert(pushed_view(s) =~= s.reverse());
    } else {
        lemma_push_pop_lifo(s.drop_last());
        assert(pushed_view(s) =~= s.reverse());
    }
}

/// Law: reversing a list twice gives back a list with the original view.
/// `rev` ensures the view of its result is the reversed view, and reversal
/// of sequences is an involution.
pub proof fn lemma_rev_rev<T>(s: Seq<T>)
    ensures
        s.reverse().reverse() == s,
{
    assert(s.reverse().reverse() =~= s);
}

impl<T> Default for SingleLinkedList<T> {
    fn default() -> (r: Self)
        ensures
            r@ == Seq::<T>::empty(),
    {
        SingleLinkedList { head: None }
    }
}

} // verus!
