//! A singly-linked list of owned nodes.
//!
//! The list owns a chain of boxed nodes starting at `head`; its abstract view
//! is the sequence of the values held by the chain, front to back. Whole nodes
//! can be detached from the front and re-attached at either end, which moves
//! the value without copying it. The chain carries no cached tail marker, so
//! operations on the back walk the chain.

use vstd::prelude::*;

verus! {

/// One link of the chain: a value and the ownership of the rest.
pub struct Node<T> {
    pub val: T,
    pub(crate) next: Option<Box<Node<T>>>,
}

/// A singly-linked sequence of owned values; its view is a `Seq` of the
/// values in link order. Every operation moves nodes; no value is ever
/// copied.
pub struct ForwardList<T> {
    pub(crate) head: Option<Box<Node<T>>>,
}

impl<T> Node<T> {
    /// The value the node holds.
    pub open(crate) spec fn value(&self) -> T {
        self.val
    }

    /// The values of the chain that starts at this node.
    pub open(crate) spec fn tail_view(self) -> Seq<T> {
        seq![self.val] + chain_view(self.next)
    }
}

/// The sequence of values held by a chain, front to back.
pub open(crate) spec fn chain_view<T>(o: Option<Box<Node<T>>>) -> Seq<T>
    decreases o,
{
    match o {
        None => Seq::<T>::empty(),
        Some(n) => seq![n.val] + chain_view(n.next),
    }
}

impl<T> ForwardList<T> {
    /// The values held by the list, front to back.
    pub open(crate) spec fn seq(&self) -> Seq<T> {
        chain_view(self.head)
    }
}

impl<T> View for ForwardList<T> {
    type V = Seq<T>;

    open spec fn view(&self) -> Seq<T> {
        self.seq()
    }
}

/// A chain with an empty view holds no node at all.
pub(crate) proof fn lemma_chain_view_empty<T>(o: Option<Box<Node<T>>>)
    requires
        chain_view(o).len() == 0,
    ensures
        o is None,
{
    if o is Some {
        assert(chain_view(o).len() >= 1);
    }
}

impl<T> ForwardList<T> {
    pub fn new() -> (r: Self)
        ensures
            r@ == Seq::<T>::empty(),
    {
        ForwardList { head: None }
    }

    pub fn is_empty(&self) -> (r: bool)
        ensures
            r == (self@.len() == 0),
    {
        proof {
            if self.head is Some {
                assert(self@.len() >= 1);
            }
        }
        self.head.is_none()
    }

    pub fn push_front(&mut self, elt: T)
        ensures
            final(self)@ == seq![elt] + old(self)@,
    {
        let h = self.head.take();
        self.head = Some(Box::new(Node { val: elt, next: h }));
    }

    /// Takes ownership of a detached node and links it in as the new front;
    /// whatever its link held is overwritten.
    pub fn push_front_node(&mut self, node: Box<Node<T>>)
        ensures
            final(self)@ == seq![node.value()] + old(self)@,
    {
        let mut node = node;
        node.next = self.head.take();
        self.head = Some(node);
    }

    pub fn push_back(&mut self, elt: T)
        ensures
            final(self)@ == old(self)@.push(elt),
    {
        self.push_back_node(Box::new(Node { val: elt, next: None }));
    }

    /// Takes ownership of a detached node and links it in as the new back;
    /// whatever its link held is overwritten.
    pub fn push_back_node(&mut self, node: Box<Node<T>>)
        ensures
            final(self)@ == old(self)@.push(node.value()),
    {
        let h = self.head.take();
        self.head = chain_push_back(h, node);
    }

    /// Detaches the front node and hands its ownership to the caller, or
    /// returns nothing when the list is empty.
    pub fn pop_front_node(&mut self) -> (r: Option<Box<Node<T>>>)
        ensures
            match r {
                None => old(self)@.len() == 0 && final(self)@ == old(self)@,
                Some(n) => old(self)@.len() > 0 && n.value() == old(self)@[0]
                    && final(self)@ == old(self)@.drop_first(),
            },
    {
        match self.head.take() {
            None => None,
            Some(mut n) => {
                self.head = n.next.take();
                proof {
                    assert(seq![n.val] + chain_view(self.head) == old(self)@);
                    assert(final(self)@ =~= old(self)@.drop_first());
                }
                Some(n)
            }
        }
    }

    pub fn pop_front(&mut self) -> (r: Option<T>)
        ensures
            match r {
                None => old(self)@.len() == 0 && final(self)@ == old(self)@,
                Some(v) => old(self)@.len() > 0 && v == old(self)@[0]
                    && final(self)@ == old(self)@.drop_first(),
            },
    {
        match self.pop_front_node() {
            None => None,
            Some(n) => {
                let inner = *n;
                Some(inner.val)
            }
        }
    }

    /// Splices the whole chain of `other` onto the end of `self`, moving the
    /// ownership of every node; `other` is left empty.
    pub fn append(&mut self, other: &mut ForwardList<T>)
        ensures
            final(self)@ == old(self)@ + old(other)@,
            final(other)@ == Seq::<T>::empty(),
    {
        let a = self.head.take();
        let b = other.head.take();
        self.head = chain_append(a, b);
    }

    /// Borrows the value at the front, or returns nothing when the list is
    /// empty.
    pub fn front(&self) -> (r: Option<&T>)
        ensures
            match r {
                None => self@.len() == 0,
                Some(v) => self@.len() > 0 && *v == self@[0],
            },
    {
        match &self.head {
            None => None,
            Some(n) => Some(&n.val),
        }
    }

    /// Mutably borrows the value at the front, or returns nothing when the
    /// list is empty; the rest of the list is untouched.
    pub fn front_mut(&mut self) -> (r: Option<&mut T>)
        ensures
            match r {
                None => old(self)@.len() == 0 && final(self)@ == old(self)@,
                Some(v) => old(self)@.len() > 0 && *v == old(self)@[0] && final(self)@ == seq![
                    *final(v),
                ] + old(self)@.drop_first(),
            },
    {
        match &mut self.head {
            None => None,
            Some(n) => Some(&mut n.val),
        }
    }

    /// Borrows the value at the back, or returns nothing when the list is
    /// empty; reached by walking the chain.
    pub fn back(&self) -> (r: Option<&T>)
        ensures
            match r {
                None => self@.len() == 0,
                Some(v) => self@.len() > 0 && *v == self@[self@.len() - 1],
            },
    {
        match &self.head {
            None => None,
            Some(n) => Some(chain_last(n)),
        }
    }

    /// Mutably borrows the value at the back, or returns nothing when the
    /// list is empty; reached by walking the chain, and the rest of the list
    /// is untouched.
    pub fn back_mut(&mut self) -> (r: Option<&mut T>)
        ensures
            match r {
                None => old(self)@.len() == 0 && final(self)@ == old(self)@,
                Some(v) => old(self)@.len() > 0 && *v == old(self)@[old(self)@.len() - 1]
                    && final(self)@ == old(self)@.update(old(self)@.len() - 1, *final(v)),
            },
    {
        match &mut self.head {
            None => None,
            Some(n) => Some(chain_last_mut(n)),
        }
    }

    /// A fresh borrowing traversal of the values, front to back.
    pub fn iter(&self) -> (r: Iter<T>)
        ensures
            r@ == self@,
    {
        Iter { current: &self.head }
    }

    /// Consumes the list into a cursor that hands the values out front to
    /// back.
    pub fn into_iter(self) -> (r: IntoIter<T>)
        ensures
            r@ == self@,
    {
        IntoIter { list: self }
    }
}

/// A borrowing cursor over a list; its view is the sequence of values it has
/// not yet handed out.
pub struct Iter<'a, T> {
    pub(crate) current: &'a Option<Box<Node<T>>>,
}

impl<'a, T> Iter<'a, T> {
    /// The values the cursor has not handed out yet.
    pub open(crate) spec fn remaining(&self) -> Seq<T> {
        chain_view(*self.current)
    }

    pub fn next(&mut self) -> (r: Option<&'a T>)
        ensures
            match r {
                None => old(self)@.len() == 0 && final(self)@ == old(self)@,
                Some(v) => old(self)@.len() > 0 && *v == old(self)@[0]
                    && final(self)@ == old(self)@.drop_first(),
            },
    {
        match self.current {
            None => None,
            Some(n) => {
                self.current = &n.next;
                proof {
                    assert(final(self)@ =~= old(self)@.drop_first());
                }
                Some(&n.val)
            }
        }
    }
}

impl<'a, T> View for Iter<'a, T> {
    type V = Seq<T>;

    open spec fn view(&self) -> Seq<T> {
        self.remaining()
    }
}

/// Walks from `n` to the end of its chain and borrows the last value.
fn chain_last<T>(n: &Node<T>) -> (r: &T)
    ensures
        *r == n.tail_view()[n.tail_view().len() - 1],
    decreases n,
{
    match &n.next {
        None => {
            proof {
                assert(n.tail_view().len() == 1);
            }
            &n.val
        }
        Some(m) => {
            proof {
                assert(chain_view(n.next) == m.tail_view());
                assert(n.tail_view().len() == 1 + m.tail_view().len());
                assert(n.tail_view()[n.tail_view().len() - 1] == m.tail_view()[m.tail_view().len()
                    - 1]);
            }
            chain_last(m)
        }
    }
}

/// Walks from `n` to the end of its chain and mutably borrows the last
/// value.
fn chain_last_mut<T>(n: &mut Node<T>) -> (r: &mut T)
    ensures
        *r == old(n).tail_view()[old(n).tail_view().len() - 1],
        final(n).tail_view() == old(n).tail_view().update(
            old(n).tail_view().len() - 1,
            *final(r),
        ),
    decreases *old(n),
{
    match &mut n.next {
        None => &mut n.val,
        Some(m) => chain_last_mut(m),
    }
}

/// Walks chain `o` to its end and links `node` there, returning the head of
/// the grown chain.
fn chain_push_back<T>(o: Option<Box<Node<T>>>, node: Box<Node<T>>) -> (r: Option<
    Box<Node<T>>,
>)
    ensures
        chain_view(r) == chain_view(o).push(node.val),
    decreases o,
{
    match o {
        None => {
            let mut node = node;
            node.next = None;
            proof {
                assert(chain_view(Some(node)) =~= chain_view(o).push(node.val));
            }
            Some(node)
        }
        Some(mut cur) => {
            let rest = cur.next.take();
            cur.next = chain_push_back(rest, node);
            proof {
                assert(chain_view(Some(cur)) =~= chain_view(o).push(node.val));
            }
            Some(cur)
        }
    }
}

/// Walks chain `a` to its end and links the whole of chain `b` there.
fn chain_append<T>(a: Option<Box<Node<T>>>, b: Option<Box<Node<T>>>) -> (r: Option<
    Box<Node<T>>,
>)
    ensures
        chain_view(r) == chain_view(a) + chain_view(b),
    decreases a,
{
    match a {
        None => {
            proof {
                assert(chain_view(b) =~= chain_view(a) + chain_view(b));
            }
            b
        }
        Some(mut cur) => {
            let rest = cur.next.take();
            cur.next = chain_append(rest, b);
            proof {
                assert(chain_view(Some(cur)) =~= chain_view(a) + chain_view(b));
            }
            Some(cur)
        }
    }
}

/// Detaching the front value and re-attaching it at the front restores the
/// sequence; re-attaching it at the back instead rotates the sequence, and
/// either way the multiset of values is unchanged.
pub proof fn lemma_pop_push_round_trip<T>(s: Seq<T>)
    requires
        s.len() > 0,
    ensures
        seq![s[0]] + s.drop_first() == s,
        s.drop_first().push(s[0]).to_multiset() == s.to_multiset(),
{
    broadcast use vstd::seq_lib::group_to_multiset_ensures;

    assert(seq![s[0]] + s.drop_first() =~= s);
    assert(s.remove(0) =~= s.drop_first());
    assert(s.remove(0).to_multiset() == s.to_multiset().remove(s[0]));
    assert(s.contains(s[0]));
    assert(s.to_multiset().count(s[0]) > 0);
    assert(s.drop_first().push(s[0]).to_multiset() == s.drop_first().to_multiset().insert(
        s[0],
    ));
    assert(s.to_multiset().remove(s[0]).insert(s[0]) =~= s.to_multiset());
}

impl<T> Default for ForwardList<T> {
    fn default() -> (r: Self)
        ensures
            r@ == Seq::<T>::empty(),
    {
        ForwardList { head: None }
    }
}

/// A consuming cursor over a list; its view is the sequence of values still
/// to come.
pub struct IntoIter<T> {
    pub(crate) list: ForwardList<T>,
}

impl<T> IntoIter<T> {
    /// The values the cursor has not handed out yet.
    pub open(crate) spec fn remaining(&self) -> Seq<T> {
        self.list.seq()
    }
}

impl<T> View for IntoIter<T> {
    type V = Seq<T>;

    open spec fn view(&self) -> Seq<T> {
        self.remaining()
    }
}

impl<T> IntoIter<T> {
    pub fn next(&mut self) -> (r: Option<T>)
        ensures
            match r {
                None => old(self)@.len() == 0 && final(self)@ == old(self)@,
                Some(v) => old(self)@.len() > 0 && v == old(self)@[0]
                    && final(self)@ == old(self)@.drop_first(),
            },
    {
        self.list.pop_front()
    }
}

} // verus!
