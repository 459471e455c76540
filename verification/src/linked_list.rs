//! The list core: a singly-linked chain of owned nodes, accessed from the
//! head only, with head insertion (`cons`), head removal (`pop`), peeking,
//! length, reversal, and three single-pass iteration views.

use vstd::prelude::*;
use vstd::std_specs::cmp::PartialEqSpec;

verus! {

/// One link of the chain: a value and the ownership link to the rest.
/// The type is public only so that contracts can speak, through
/// [`node_seq`], about the chain behind a mutable iteration view; its
/// representation stays private.
#[derive(Debug)]
pub struct Node<T> {
    val: T,
    next: Option<Box<Node<T>>>,
}

/// The elements of the chain starting at a node, the node's own value
/// first.
pub closed spec fn node_seq<T>(node: Node<T>) -> Seq<T> {
    seq![node.val] + link_seq(node.next)
}

/// A singly-linked list holding the ownership link to its first node.
///
/// The abstract value of a list is the sequence of its elements in
/// head-to-tail order, available as `self@`.
#[derive(Debug)]
pub struct LinkedList<T> {
    head: Option<Box<Node<T>>>,
}

/// The sequence of elements hanging off a link, head first.
spec fn link_seq<T>(link: Option<Box<Node<T>>>) -> Seq<T>
    decreases link,
{
    match link {
        Option::None => Seq::empty(),
        Option::Some(node) => seq![node.val] + link_seq(node.next),
    }
}

impl<T> View for LinkedList<T> {
    type V = Seq<T>;

    closed spec fn view(&self) -> Seq<T> {
        link_seq(self.head)
    }
}

impl<T> LinkedList<T> {
    /// Creates an empty list.
    pub fn new() -> (r: Self)
        ensures
            r@ == Seq::<T>::empty(),
    {
        LinkedList { head: None }
    }

    /// Prepends `item` as the new head, taking ownership of it.
    pub fn cons(&mut self, item: T)
        ensures
            final(self)@ == seq![item] + old(self)@,
    {
        let new_node = Box::new(Node { val: item, next: self.head.take() });
        self.head = Some(new_node);
    }

    /// Removes and returns the head element; `None` on an empty list.
    pub fn pop(&mut self) -> (r: Option<T>)
        ensures
            old(self)@.len() == 0 ==> r is None && final(self)@ == old(self)@,
            old(self)@.len() > 0 ==> r == Some(old(self)@[0]) && final(self)@ == old(self)@.drop_first(),
    {
        match self.head.take() {
            None => None,
            Some(node) => {
                let inner = *node;
                self.head = inner.next;
                Some(inner.val)
            },
        }
    }

    /// Returns a read-only view of the head element; `None` on an empty list.
    pub fn peek(&self) -> (r: Option<&T>)
        ensures
            self@.len() == 0 ==> r is None,
            self@.len() > 0 ==> r is Some && *r.unwrap() == self@[0],
    {
        match &self.head {
            None => None,
            Some(node) => Some(&node.val),
        }
    }

    /// Returns a mutable view of the head element; `None` on an empty list.
    /// Whatever the caller writes through the view becomes the head element.
    pub fn peek_mut(&mut self) -> (r: Option<&mut T>)
        ensures
            old(self)@.len() == 0 ==> r is None && *final(self) == *old(self),
            old(self)@.len() > 0 ==> r is Some && *r.unwrap() == old(self)@[0]
                && final(self)@ == old(self)@.update(0, *final(r.unwrap())),
    {
        match &mut self.head {
            None => None,
            Some(node) => Some(&mut node.val),
        }
    }

    /// Counts the elements by a full traversal of the chain.
    pub fn len(&self) -> (r: usize)
        requires
            self@.len() <= usize::MAX,
        ensures
            r == self@.len(),
    {
        let mut count: usize = 0;
        let mut cur: &Option<Box<Node<T>>> = &self.head;
        while cur.is_some()
            invariant
                self@.len() <= usize::MAX,
                count + link_seq(*cur).len() == self@.len(),
            decreases link_seq(*cur).len(),
        {
            match cur {
                Some(node) => {
                    count = count + 1;
                    cur = &node.next;
                },
                None => {},
            }
        }
        count
    }

    /// Consumes the list and returns one with the element order reversed,
    /// by repeatedly removing from the source head and prepending to a
    /// fresh accumulator.
    pub fn reverse(self) -> (r: Self)
        ensures
            r@ == self@.reverse(),
    {
        let ghost orig: Seq<T> = self@;
        let mut source = self;
        let mut reversed = LinkedList::new();
        loop
            invariant
                orig.reverse() == source@.reverse() + reversed@,
            ensures
                source@.len() == 0,
                orig.reverse() == source@.reverse() + reversed@,
            decreases source@.len(),
        {
            proof {
                assert(source@.len() > 0 ==> source@.reverse()
                    =~= source@.drop_first().reverse() + seq![source@[0]]);
            }
            match source.pop() {
                Some(item) => reversed.cons(item),
                None => break,
            }
        }
        proof {
            assert(reversed@ =~= orig.reverse());
        }
        reversed
    }

    /// Builds a list whose head-to-tail order equals the order of the given
    /// elements: each is prepended in traversal order and the result is
    /// reversed once.
    pub fn from_vec(items: Vec<T>) -> (r: Self)
        ensures
            r@ == items@,
    {
        let ghost orig: Seq<T> = items@;
        let mut items = items;
        let mut backwards = LinkedList::new();
        while items.len() > 0
            invariant
                orig == backwards@.reverse() + items@,
            decreases items@.len(),
        {
            let ghost items_pre: Seq<T> = items@;
            let ghost back_pre: Seq<T> = backwards@;
            let item = items.remove(0);
            backwards.cons(item);
            proof {
                assert(items@ =~= items_pre.drop_first());
                assert(backwards@.reverse() =~= back_pre.reverse() + seq![item]);
                assert(back_pre.reverse() + seq![item] + items_pre.drop_first()
                    =~= back_pre.reverse() + items_pre);
                assert(backwards@.reverse() + items@
                    =~= back_pre.reverse() + seq![item] + items_pre.drop_first());
            }
        }
        proof {
            assert(backwards@.reverse() =~= orig);
            assert(backwards@.reverse().reverse() =~= backwards@);
        }
        backwards.reverse()
    }

    /// Returns a mutably borrowing iteration view, which takes exclusive
    /// access to the whole chain for its lifetime.  The list ends up
    /// holding whatever the caller writes through the view and the
    /// references it yields: its final value is the final value of the
    /// chain the view holds.
    pub fn iter_mut(&mut self) -> (r: IterMut<'_, T>)
        ensures
            r@ == old(self)@,
            r.link() is None <==> old(self)@.len() == 0,
            (match r.link() {
                None => final(self)@ == old(self)@,
                Some(m) => final(self)@ == node_seq(*final(m)),
            }),
    {
        IterMut {
            next: match &mut self.head {
                None => None,
                Some(node) => Some(&mut **node),
            },
        }
    }

    /// Hands the list to an owning iteration view that drains it.
    pub fn into_iter(self) -> (r: IntoIter<T>)
        ensures
            r@ == self@,
    {
        IntoIter(self)
    }

    /// Returns a borrowing iteration view; the list stays usable afterwards.
    pub fn iter(&self) -> (r: Iter<'_, T>)
        ensures
            r@ == self@,
    {
        Iter {
            next: match &self.head {
                None => None,
                Some(node) => Some(&**node),
            },
        }
    }
}

impl<T> Drop for LinkedList<T> {
    /// Releases every owned node iteratively from head to tail, so that
    /// releasing a long chain cannot exhaust the call stack.
    fn drop(&mut self)
        opens_invariants none
        no_unwind
    {
        let mut current_link: Option<Box<Node<T>>> = None;
        core::mem::swap(&mut current_link, &mut self.head);
        loop
            decreases link_seq(current_link).len(),
        {
            match current_link {
                Some(mut boxed_node) => {
                    let mut next_link: Option<Box<Node<T>>> = None;
                    core::mem::swap(&mut next_link, &mut boxed_node.next);
                    current_link = next_link;
                },
                None => {
                    break;
                },
            }
        }
    }
}

impl<T: PartialEq> PartialEq for LinkedList<T> {
    /// Structural equality: true exactly when the element sequences, read
    /// head to tail, are equal element-wise and of equal length.
    fn eq(&self, other: &Self) -> (r: bool) {
        let mut a = &self.head;
        let mut b = &other.head;
        let ghost mut i: int = 0;
        loop
            invariant
                0 <= i <= self@.len(),
                i <= other@.len(),
                link_seq(*a) == self@.skip(i),
                link_seq(*b) == other@.skip(i),
                <T as vstd::std_specs::cmp::PartialEqSpec>::obeys_eq_spec() ==> forall|j: int|
                    0 <= j < i ==> #[trigger] self@[j].eq_spec(&other@[j]),
            decreases self@.len() - i,
        {
            match (a, b) {
                (None, None) => {
                    proof {
                        if <T as vstd::std_specs::cmp::PartialEqSpec>::obeys_eq_spec() {
                            assert(self@.len() == i && other@.len() == i) by {
                                assert(self@.skip(i).len() == 0);
                                assert(other@.skip(i).len() == 0);
                            }
                        }
                    }
                    return true;
                },
                (Some(x), Some(y)) => {
                    proof {
                        assert(self@.skip(i).len() > 0);
                        assert(other@.skip(i).len() > 0);
                        assert(self@.skip(i)[0] == self@[i]);
                        assert(other@.skip(i)[0] == other@[i]);
                    }
                    if x.val == y.val {
                        proof {
                            assert(self@.skip(i).drop_first() =~= self@.skip(i + 1));
                            assert(other@.skip(i).drop_first() =~= other@.skip(i + 1));
                            i = i + 1;
                        }
                        a = &x.next;
                        b = &y.next;
                    } else {
                        return false;
                    }
                },
                (None, Some(y)) => {
                    proof {
                        assert(link_seq(*a).len() == 0);
                        assert(link_seq(*b).len() > 0);
                        assert(self@.len() == i && other@.len() > i);
                    }
                    return false;
                },
                (Some(x), None) => {
                    proof {
                        assert(link_seq(*a).len() > 0);
                        assert(link_seq(*b).len() == 0);
                        assert(other@.len() == i && self@.len() > i);
                    }
                    return false;
                },
            }
        }
    }
}

impl<T: PartialEq> vstd::std_specs::cmp::PartialEqSpecImpl for LinkedList<T> {
    open spec fn obeys_eq_spec() -> bool {
        <T as vstd::std_specs::cmp::PartialEqSpec>::obeys_eq_spec()
    }

    open spec fn eq_spec(&self, other: &Self) -> bool {
        self@.len() == other@.len() && (forall|i: int|
            0 <= i < self@.len() ==> #[trigger] self@[i].eq_spec(&other@[i]))
    }
}

/// Two lists whose element type's equality is genuine equality compare
/// equal exactly when their head-to-tail element sequences are equal in
/// value and length.
pub proof fn lemma_eq_iff_same_elements<T: PartialEq>(l1: &LinkedList<T>, l2: &LinkedList<T>)
    requires
        forall|a: T, b: T| #[trigger] a.eq_spec(&b) <==> a == b,
    ensures
        l1.eq_spec(l2) <==> l1@ == l2@,
{
    if l1.eq_spec(l2) {
        assert forall|i: int| 0 <= i < l1@.len() implies l1@[i] == l2@[i] by {
            assert(l1@[i].eq_spec(&l2@[i]));
        }
        assert(l1@ =~= l2@);
    }
}

/// Reversal is an involution: reversing a sequence twice restores it,
/// so reversing a list twice restores its abstract value.
pub proof fn lemma_reverse_involution<T>(s: Seq<T>)
    ensures
        s.reverse().reverse() == s,
{
    assert(s.reverse().reverse() =~= s);
}

/// An owning, single-pass iteration view: each step removes the head of
/// the wrapped list, so iteration destroys the list as it proceeds.
pub struct IntoIter<T>(LinkedList<T>);

impl<T> View for IntoIter<T> {
    type V = Seq<T>;

    closed spec fn view(&self) -> Seq<T> {
        self.0@
    }
}

impl<T> IntoIter<T> {
    /// Removes and yields the next element; `None` once drained.
    pub fn next(&mut self) -> (r: Option<T>)
        ensures
            old(self)@.len() == 0 ==> r is None && final(self)@ == old(self)@,
            old(self)@.len() > 0 ==> r == Some(old(self)@[0]) && final(self)@ == old(self)@.drop_first(),
    {
        self.0.pop()
    }
}

/// The sequence of elements hanging off a borrowed link, head first.
spec fn borrowed_link_seq<T>(link: Option<&Node<T>>) -> Seq<T> {
    match link {
        Option::None => Seq::empty(),
        Option::Some(node) => seq![node.val] + link_seq(node.next),
    }
}

/// A borrowing, single-pass iteration view: walks the chain through
/// immutable links and yields read-only references; the source list is
/// left unchanged.
pub struct Iter<'a, T> {
    next: Option<&'a Node<T>>,
}

impl<'a, T> View for Iter<'a, T> {
    type V = Seq<T>;

    closed spec fn view(&self) -> Seq<T> {
        borrowed_link_seq(self.next)
    }
}

impl<'a, T> Iter<'a, T> {
    /// Yields a reference to the next element and advances; `None` at the end.
    pub fn next(&mut self) -> (r: Option<&'a T>)
        ensures
            old(self)@.len() == 0 ==> r is None && final(self)@ == old(self)@,
            old(self)@.len() > 0 ==> r is Some && *r.unwrap() == old(self)@[0]
                && final(self)@ == old(self)@.drop_first(),
    {
        match self.next {
            None => None,
            Some(node) => {
                self.next = match &node.next {
                    None => None,
                    Some(next_node) => Some(&**next_node),
                };
                Some(&node.val)
            },
        }
    }
}

/// A mutably borrowing, single-pass iteration view: walks the chain
/// through mutable links and yields mutable references to the elements
/// in head-to-tail order.
pub struct IterMut<'a, T> {
    next: Option<&'a mut Node<T>>,
}

impl<'a, T> View for IterMut<'a, T> {
    type V = Seq<T>;

    /// The remaining elements as they currently stand, head first.
    closed spec fn view(&self) -> Seq<T> {
        match self.next {
            None => Seq::empty(),
            Some(m) => seq![(*m).val] + link_seq((*m).next),
        }
    }
}

impl<'a, T> IterMut<'a, T> {
    /// The mutable reference the view holds into the rest of the chain;
    /// `None` once the view is exhausted.  Contracts use it to relate the
    /// final value of the chain to the references the view hands out.
    pub closed spec fn link(&self) -> Option<&'a mut Node<T>> {
        self.next
    }

    /// Yields a mutable reference to the next element and advances;
    /// `None` at the end.  The element's slot in the chain ends up holding
    /// whatever the caller writes through the yielded reference, and the
    /// rest of the chain ends up as the final value of the advanced view's
    /// own chain.
    pub fn next(&mut self) -> (r: Option<&'a mut T>)
        ensures
            final(self).link() is None <==> old(self)@.len() <= 1,
            old(self)@.len() == 0 ==> r is None && *final(self) == *old(self),
            old(self)@.len() > 0 ==> r is Some
                && *r.unwrap() == old(self)@[0]
                && final(self)@ == old(self)@.drop_first()
                && (old(self).link() matches Some(m) ==> node_seq(*final(m)) == seq![
                    *final(r.unwrap()),
                ] + (match final(self).link() {
                    None => Seq::<T>::empty(),
                    Some(m2) => node_seq(*final(m2)),
                })),
    {
        let mut taken: Option<&'a mut Node<T>> = None;
        core::mem::swap(&mut taken, &mut self.next);
        match taken {
            None => None,
            Some(node) => {
                let Node { val, next } = node;
                self.next = match next {
                    None => None,
                    Some(next_node) => Some(&mut **next_node),
                };
                Some(val)
            },
        }
    }
}

} // verus!
