//! A mergeable min-priority queue: a pairing heap whose sibling groups are
//! kept in an ownership-transferring singly-linked list.
//!
//! A heap node owns a value and a list of child subtrees. The heap itself is
//! either empty or rooted at one such node, and the root of every subtree
//! holds a value at most every value below it, so the root of the whole heap
//! is the minimum. Merging two heaps compares the two roots and attaches the
//! losing root, subtree and all, at the back of the winner's child list; no
//! value is ever copied. Extracting the minimum rebuilds the heap from the
//! freed children by repeated pairwise merging.

use vstd::multiset::Multiset;
use vstd::prelude::*;

pub mod forward_list;

use forward_list::ForwardList;
use forward_list::Node;

verus! {

/// The outcome of a three-way comparison.
pub enum Order {
    Less,
    Equal,
    Greater,
}

/// The order a heap asks of its value type: a reflexive, transitive and
/// total `le` relation, with an executable three-way comparison that agrees
/// with it. Each implementation proves the laws, so the order is never taken
/// on trust. Values may compare as equal without being the same value; the
/// heap never tells such values apart.
pub trait TotalOrder: Sized {
    spec fn le(self, other: Self) -> bool;

    proof fn transitive(x: Self, y: Self, z: Self)
        requires
            x.le(y),
            y.le(z),
        ensures
            x.le(z),
    ;

    proof fn total(x: Self, y: Self)
        ensures
            x.le(y) || y.le(x),
    ;

    fn compare(&self, other: &Self) -> (c: Order)
        ensures
            match c {
                Order::Less => self.le(*other) && !other.le(*self),
                Order::Equal => self.le(*other) && other.le(*self),
                Order::Greater => other.le(*self) && !self.le(*other),
            },
    ;
}

impl TotalOrder for u64 {
    open spec fn le(self, other: Self) -> bool {
        self <= other
    }

    proof fn transitive(x: Self, y: Self, z: Self) {
    }

    proof fn total(x: Self, y: Self) {
    }

    fn compare(&self, other: &Self) -> (c: Order) {
        if *self < *other {
            Order::Less
        } else if *self == *other {
            Order::Equal
        } else {
            Order::Greater
        }
    }
}

/// A min-heap: either empty, or rooted at one node that owns every value in
/// the structure.
pub enum PairingHeap<T: TotalOrder> {
    Empty,
    Head(ParingNode<T>),
}

/// The root of one heap-ordered subtree: a value and the list of child
/// subtrees.
pub struct ParingNode<T: TotalOrder> {
    pub(crate) val: T,
    pub(crate) children: ForwardList<PairingHeap<T>>,
}

/// `v` comes no later than every value of the multiset in the order of `T`.
pub open spec fn ge_all<T: TotalOrder>(m: Multiset<T>, v: T) -> bool {
    forall|x: T| #[trigger] m.count(x) > 0 ==> v.le(x)
}

/// The multiset of every value held by a chain of subtrees.
pub open(crate) spec fn chain_ms<T: TotalOrder>(o: Option<Box<Node<PairingHeap<T>>>>) -> Multiset<T>
    decreases o,
{
    match o {
        None => Multiset::<T>::empty(),
        Some(n) => n.val.ms().add(chain_ms(n.next)),
    }
}

impl<T: TotalOrder> ParingNode<T> {
    /// The value at the root of this subtree.
    pub open(crate) spec fn value(&self) -> T {
        self.val
    }

    /// The multiset of every value in this subtree.
    pub open(crate) spec fn ms(self) -> Multiset<T>
        decreases self,
    {
        chain_ms(self.children.head).insert(self.val)
    }
}

impl<T: TotalOrder> PairingHeap<T> {
    /// The multiset of values the heap holds.
    pub open(crate) spec fn ms(self) -> Multiset<T>
        decreases self,
    {
        match self {
            PairingHeap::Empty => Multiset::<T>::empty(),
            PairingHeap::Head(n) => n.ms(),
        }
    }
}

/// Every subtree in the chain satisfies the heap ordering.
pub open(crate) spec fn chain_wf<T: TotalOrder>(o: Option<Box<Node<PairingHeap<T>>>>) -> bool
    decreases o,
{
    match o {
        None => true,
        Some(n) => n.val.wf() && chain_wf(n.next),
    }
}

impl<T: TotalOrder> ParingNode<T> {
    /// Heap ordering: every child subtree is heap-ordered, and the root value
    /// is at most every value below it.
    pub open(crate) spec fn wf(self) -> bool
        decreases self,
    {
        chain_wf(self.children.head) && ge_all(chain_ms(self.children.head), self.val)
    }
}

impl<T: TotalOrder> PairingHeap<T> {
    /// The global heap property: the structure is empty or rooted at a
    /// heap-ordered node.
    pub open(crate) spec fn wf(self) -> bool
        decreases self,
    {
        match self {
            PairingHeap::Empty => true,
            PairingHeap::Head(n) => n.wf(),
        }
    }
}

impl<T: TotalOrder> View for PairingHeap<T> {
    type V = Multiset<T>;

    open spec fn view(&self) -> Multiset<T> {
        self.ms()
    }
}

/// The multiset of every value held by a sequence of subtrees.
pub open spec fn seq_ms<T: TotalOrder>(s: Seq<PairingHeap<T>>) -> Multiset<T>
    decreases s.len(),
{
    if s.len() == 0 {
        Multiset::<T>::empty()
    } else {
        s[0].ms().add(seq_ms(s.drop_first()))
    }
}

/// Every subtree in the sequence satisfies the heap ordering.
pub open spec fn seq_wf<T: TotalOrder>(s: Seq<PairingHeap<T>>) -> bool {
    forall|i: int| 0 <= i < s.len() ==> (#[trigger] s[i]).wf()
}

/// A chain holds the same values as its sequence view.
proof fn lemma_chain_ms_view<T: TotalOrder>(o: Option<Box<Node<PairingHeap<T>>>>)
    ensures
        chain_ms(o) == seq_ms(forward_list::chain_view(o)),
    decreases o,
{
    match o {
        None => {
            assert(forward_list::chain_view(o).len() == 0);
        }
        Some(n) => {
            lemma_chain_ms_view(n.next);
            let s = forward_list::chain_view(o);
            let rest = forward_list::chain_view(n.next);
            assert(s == seq![n.val] + rest);
            assert(s[0] == n.val);
            assert(s.drop_first() =~= rest);
        }
    }
}

/// A chain is heap-ordered exactly when every subtree of its sequence view
/// is.
proof fn lemma_chain_wf_view<T: TotalOrder>(o: Option<Box<Node<PairingHeap<T>>>>)
    ensures
        chain_wf(o) == seq_wf(forward_list::chain_view(o)),
    decreases o,
{
    match o {
        None => {
            assert(seq_wf(forward_list::chain_view(o)));
        }
        Some(n) => {
            lemma_chain_wf_view(n.next);
            let s = forward_list::chain_view(o);
            let rest = forward_list::chain_view(n.next);
            assert(s == seq![n.val] + rest);
            assert(s[0] == n.val);
            assert(forall|i: int| 1 <= i < s.len() ==> s[i] == rest[i - 1]);
            if chain_wf(o) {
                assert forall|i: int| 0 <= i < s.len() implies (#[trigger] s[i]).wf() by {
                    if i >= 1 {
                        assert(rest[i - 1].wf());
                    }
                }
            }
            if seq_wf(s) {
                assert(s[0].wf());
                assert forall|j: int| 0 <= j < rest.len() implies (#[trigger] rest[j]).wf() by {
                    assert(s[j + 1].wf());
                }
            }
        }
    }
}

/// A heap-ordered subtree's root value is the least value it holds.
proof fn lemma_node_min<T: TotalOrder>(n: ParingNode<T>)
    requires
        n.wf(),
    ensures
        n.ms().count(n.value()) > 0,
        ge_all(n.ms(), n.value()),
{
    assert forall|x: T| #[trigger] n.ms().count(x) > 0 implies n.value().le(x) by {
        if x == n.val {
            T::total(n.val, n.val);
        } else {
            assert(chain_ms(n.children.head).count(x) > 0);
        }
    }
}

/// Appending one subtree to a sequence adds exactly its values.
proof fn lemma_seq_ms_push<T: TotalOrder>(s: Seq<PairingHeap<T>>, h: PairingHeap<T>)
    ensures
        seq_ms(s.push(h)) == seq_ms(s).add(h.ms()),
    decreases s.len(),
{
    if s.len() == 0 {
        assert(s.push(h).len() == 1);
        assert(s.push(h)[0] == h);
        assert(s.push(h).drop_first().len() == 0);
        assert(seq_ms(s.push(h).drop_first()) == Multiset::<T>::empty());
        assert(seq_ms(s.push(h)) == h.ms().add(Multiset::<T>::empty()));
        assert(seq_ms(s) == Multiset::<T>::empty());
        assert(seq_ms(s.push(h)) =~= seq_ms(s).add(h.ms()));
    } else {
        lemma_seq_ms_push(s.drop_first(), h);
        assert(s.push(h).drop_first() =~= s.drop_first().push(h));
        assert(s.push(h)[0] == s[0]);
        assert(seq_ms(s.push(h)) == s[0].ms().add(seq_ms(s.drop_first().push(h))));
        assert(seq_ms(s.drop_first().push(h)) == seq_ms(s.drop_first()).add(h.ms()));
        assert(seq_ms(s) == s[0].ms().add(seq_ms(s.drop_first())));
        assert(seq_ms(s.push(h)) =~= seq_ms(s).add(h.ms()));
    }
}

/// Appending a heap-ordered subtree keeps a sequence heap-ordered.
proof fn lemma_seq_wf_push<T: TotalOrder>(s: Seq<PairingHeap<T>>, h: PairingHeap<T>)
    requires
        seq_wf(s),
        h.wf(),
    ensures
        seq_wf(s.push(h)),
{
    assert forall|i: int| 0 <= i < s.push(h).len() implies (#[trigger] s.push(h)[i]).wf() by {
        if i < s.len() {
            assert(s[i].wf());
        }
    }
}

/// Minimum extractions come out in non-decreasing order: once a least value
/// `v1` of a multiset is removed, any value `v2` that remains is at least
/// `v1`.
pub proof fn lemma_extraction_sorted<T: TotalOrder>(m: Multiset<T>, v1: T, v2: T)
    requires
        m.count(v1) > 0,
        ge_all(m, v1),
        m.remove(v1).count(v2) > 0,
    ensures
        v1.le(v2),
{
    assert(m.count(v2) > 0);
}

impl<T: TotalOrder> ParingNode<T> {
    /// Wraps a value as a childless subtree.
    pub fn new(val: T) -> (r: Self)
        ensures
            r.wf(),
            r.ms() == Multiset::<T>::empty().insert(val),
            r.value() == val,
    {
        let children = ForwardList::<PairingHeap<T>>::new();
        proof {
            forward_list::lemma_chain_view_empty(children.head);
        }
        ParingNode { val, children }
    }

    /// Attaches `n`, subtree and all, at the back of the child list. The
    /// result is heap-ordered whenever both sides were and the new child's
    /// root value is no smaller than this subtree's.
    pub fn add_child(&mut self, n: ParingNode<T>)
        ensures
            final(self).ms() == old(self).ms().add(n.ms()),
            final(self).value() == old(self).value(),
            old(self).wf() && n.wf() && old(self).value().le(n.value()) ==> final(self).wf(),
    {
        let ghost old_head = self.children.head;
        let ghost n0 = n;
        proof {
            lemma_chain_ms_view(old_head);
            lemma_chain_wf_view(old_head);
        }
        self.children.push_back(PairingHeap::Head(n));
        proof {
            lemma_chain_ms_view(self.children.head);
            lemma_chain_wf_view(self.children.head);
            lemma_seq_ms_push(forward_list::chain_view(old_head), PairingHeap::Head(n0));
            assert(final(self).ms() =~= old(self).ms().add(n0.ms()));
            if old(self).wf() && n0.wf() && old(self).value().le(n0.value()) {
                lemma_node_min(n0);
                lemma_seq_wf_push(forward_list::chain_view(old_head), PairingHeap::Head(n0));
                assert forall|x: T| #[trigger] chain_ms(self.children.head).count(x)
                    > 0 implies self.val.le(x) by {
                    if chain_ms(old_head).count(x) == 0 {
                        assert(n0.ms().count(x) > 0);
                        assert(n0.value().le(x));
                        T::transitive(self.val, n0.value(), x);
                    }
                }
            }
        }
    }
}

impl<T: TotalOrder> PairingHeap<T> {
    /// The empty heap.
    pub fn new() -> (r: Self)
        ensures
            r.wf(),
            r@ == Multiset::<T>::empty(),
    {
        Self::default()
    }

    /// The heap holding exactly one value.
    pub fn of(t: T) -> (r: Self)
        ensures
            r.wf(),
            r@ == Multiset::<T>::empty().insert(t),
    {
        PairingHeap::Head(ParingNode::new(t))
    }

    /// Borrows the least value the heap holds, or returns nothing when the
    /// heap is empty.
    pub fn get_minium(&self) -> (r: Option<&T>)
        requires
            self.wf(),
        ensures
            match r {
                None => self@ == Multiset::<T>::empty(),
                Some(v) => self@.count(*v) > 0 && ge_all(self@, *v),
            },
    {
        match self {
            PairingHeap::Empty => None,
            PairingHeap::Head(node) => {
                proof {
                    lemma_node_min(*node);
                }
                Some(&node.val)
            }
        }
    }

    /// Combines two heap-ordered roots into one: the root with the smaller
    /// value wins and the other root becomes the last child of the winner.
    /// On equal values the first root wins.
    fn merge_roots(a: ParingNode<T>, b: ParingNode<T>) -> (r: ParingNode<T>)
        requires
            a.wf(),
            b.wf(),
        ensures
            r.wf(),
            r.ms() == a.ms().add(b.ms()),
    {
        let ghost a0 = a;
        let ghost b0 = b;
        let mut win = a;
        let mut lose = b;
        let c = win.val.compare(&lose.val);
        if let Order::Greater = c {
            core::mem::swap(&mut win, &mut lose);
        }
        proof {
            assert(win.value().le(lose.value()));
        }
        win.add_child(lose);
        proof {
            assert(win.ms() =~= a0.ms().add(b0.ms()));
        }
        win
    }

    /// Pours the whole of `other` into `self`, moving every node: if either
    /// side is empty the result is the other side, and otherwise the root
    /// with the larger value becomes a child of the other root.
    pub fn merge(&mut self, other: PairingHeap<T>)
        requires
            old(self).wf(),
            other.wf(),
        ensures
            final(self).wf(),
            final(self)@ == old(self)@.add(other@),
    {
        let ghost oms = other@;
        let mut cur = PairingHeap::Empty;
        core::mem::swap(self, &mut cur);
        match cur {
            PairingHeap::Empty => {
                *self = other;
                proof {
                    assert(final(self)@ =~= old(self)@.add(oms));
                }
            }
            PairingHeap::Head(a) => {
                match other {
                    PairingHeap::Empty => {
                        *self = PairingHeap::Head(a);
                        proof {
                            assert(final(self)@ =~= old(self)@.add(oms));
                        }
                    }
                    PairingHeap::Head(b) => {
                        *self = PairingHeap::Head(Self::merge_roots(a, b));
                    }
                }
            }
        }
    }

    /// Adds one value to the heap: the new value either becomes the root,
    /// pushing the old root's value down as a new leaf child, or enters as a
    /// new leaf child itself.
    pub fn insert(&mut self, t: T)
        requires
            old(self).wf(),
        ensures
            final(self).wf(),
            final(self)@ == old(self)@.insert(t),
            final(self)@.len() == old(self)@.len() + 1,
    {
        let ghost t0 = t;
        let mut cur = PairingHeap::Empty;
        core::mem::swap(self, &mut cur);
        match cur {
            PairingHeap::Empty => {
                *self = PairingHeap::Head(ParingNode::new(t));
                proof {
                    assert(final(self)@ =~= old(self)@.insert(t0));
                }
            }
            PairingHeap::Head(node) => {
                let ghost n0 = node;
                let mut node = node;
                let mut down = t;
                let c = down.compare(&node.val);
                if let Order::Less = c {
                    core::mem::swap(&mut node.val, &mut down);
                }
                let ghost down0 = down;
                proof {
                    assert(node.children.head == n0.children.head);
                    assert forall|x: T| #[trigger] chain_ms(node.children.head).count(x)
                        > 0 implies node.val.le(x) by {
                        assert(chain_ms(n0.children.head).count(x) > 0);
                        assert(n0.val.le(x));
                        if node.val != n0.val {
                            T::transitive(node.val, n0.val, x);
                        }
                    }
                    assert(node.wf());
                    if node.val == n0.val {
                        T::total(n0.val, down0);
                        assert(node.val.le(down0));
                    }
                }
                let ghost nswapped = node;
                node.add_child(ParingNode::new(down));
                *self = PairingHeap::Head(node);
                proof {
                    assert(final(self)@ == nswapped.ms().add(
                        Multiset::<T>::empty().insert(down0),
                    ));
                    assert(nswapped.ms() == chain_ms(n0.children.head).insert(nswapped.val));
                    assert(old(self)@ == chain_ms(n0.children.head).insert(n0.val));
                    assert(final(self)@ =~= old(self)@.insert(t0));
                }
            }
        }
    }

    /// Reduces a list of heap-ordered subtrees to one heap holding all their
    /// values, by repeatedly merging the two front subtrees and queueing the
    /// result at the back until at most one remains.
    #[verifier::loop_isolation(false)]
    pub fn merge_pairs(l: ForwardList<PairingHeap<T>>) -> (r: Self)
        requires
            seq_wf(l@),
        ensures
            r.wf(),
            r@ == seq_ms(l@),
    {
        let mut l = l;
        let ghost total = seq_ms(l@);
        loop
            invariant
                seq_wf(l@),
                seq_ms(l@) == total,
            decreases l@.len(),
        {
            let ghost s0 = l@;
            match l.pop_front() {
                None => {
                    return PairingHeap::Empty;
                }
                Some(first) => {
                    let ghost s1 = l@;
                    proof {
                        assert(first == s0[0]);
                        assert(first.wf());
                        assert forall|i: int| 0 <= i < s1.len() implies (#[trigger] s1[i]).wf() by {
                            assert(s0[i + 1].wf());
                        }
                    }
                    match l.pop_front() {
                        None => {
                            proof {
                                assert(seq_ms(s0) == total);
                                assert(s0.drop_first() == s1);
                                assert(s1.len() == 0);
                                assert(seq_ms(s0) == s0[0].ms().add(seq_ms(s1)));
                                assert(seq_ms(s1) == Multiset::<T>::empty());
                                assert(total =~= s0[0].ms());
                            }
                            return first;
                        }
                        Some(second) => {
                            let ghost s2 = l@;
                            proof {
                                assert(second == s1[0]);
                                assert(second.wf());
                                assert forall|i: int| 0 <= i < s2.len() implies (
                                #[trigger] s2[i]).wf() by {
                                    assert(s1[i + 1].wf());
                                }
                            }
                            let m = PairingHeap::merge_heaps(first, second);
                            let ghost m0 = m;
                            l.push_back(m);
                            proof {
                                lemma_seq_ms_push(s2, m0);
                                lemma_seq_wf_push(s2, m0);
                                assert(seq_ms(s0) == total);
                                assert(seq_ms(s0) == s0[0].ms().add(seq_ms(s1)));
                                assert(seq_ms(s1) == s1[0].ms().add(seq_ms(s2)));
                                assert(l@ == s2.push(m0));
                                assert(seq_ms(l@) == seq_ms(s2).add(m0.ms()));
                                assert(m0.ms() == s0[0].ms().add(s1[0].ms()));
                                assert(seq_ms(l@) =~= total);
                            }
                        }
                    }
                }
            }
        }
    }

    /// Combines two heaps into one holding the values of both, favouring a
    /// non-empty side and otherwise merging the two roots.
    fn merge_heaps(a: PairingHeap<T>, b: PairingHeap<T>) -> (r: PairingHeap<T>)
        requires
            a.wf(),
            b.wf(),
        ensures
            r.wf(),
            r@ == a@.add(b@),
    {
        let mut r = a;
        r.merge(b);
        r
    }

    /// Detaches the root, rebuilds the heap from its children by pairwise
    /// merging, and returns the root's value: the least value the heap held.
    pub fn pop_min(&mut self) -> (r: Option<T>)
        requires
            old(self).wf(),
        ensures
            final(self).wf(),
            match r {
                None => old(self)@ == Multiset::<T>::empty() && final(self)@ == old(self)@,
                Some(v) => old(self)@.count(v) > 0 && ge_all(old(self)@, v) && final(self)@
                    == old(self)@.remove(v) && old(self)@ == final(self)@.insert(v),
            },
    {
        let mut cur = PairingHeap::Empty;
        core::mem::swap(self, &mut cur);
        match cur {
            PairingHeap::Empty => None,
            PairingHeap::Head(node) => {
                proof {
                    lemma_node_min(node);
                    lemma_chain_ms_view(node.children.head);
                    lemma_chain_wf_view(node.children.head);
                }
                let ParingNode { val, children } = node;
                let ghost v0 = val;
                *self = PairingHeap::merge_pairs(children);
                proof {
                    assert(final(self)@ =~= old(self)@.remove(v0));
                    assert(old(self)@ =~= final(self)@.insert(v0));
                }
                Some(val)
            }
        }
    }

    /// Builds a heap holding every value of the vector, by collecting the
    /// values as childless subtrees and merging them pairwise.
    #[verifier::loop_isolation(false)]
    pub fn from_vec(v: Vec<T>) -> (r: Self)
        ensures
            r.wf(),
            r@ == v@.to_multiset(),
    {
        broadcast use vstd::seq_lib::group_to_multiset_ensures;

        let ghost v0 = v@;
        let mut v = v;
        let mut l = ForwardList::<PairingHeap<T>>::new();
        proof {
            assert(seq_ms(l@).add(v@.to_multiset()) =~= v0.to_multiset());
        }
        while v.len() > 0
            invariant
                seq_wf(l@),
                seq_ms(l@).add(v@.to_multiset()) == v0.to_multiset(),
            decreases v.len(),
        {
            let ghost s = l@;
            let ghost vv = v@;
            let x = v.pop().unwrap();
            let ghost x0 = x;
            let h = PairingHeap::of(x);
            let ghost h0 = h;
            l.push_back(h);
            proof {
                lemma_seq_ms_push(s, h0);
                lemma_seq_wf_push(s, h0);
                assert(v@ =~= vv.remove(vv.len() - 1));
                assert(vv.remove(vv.len() - 1).to_multiset() == vv.to_multiset().remove(
                    vv[vv.len() - 1],
                ));
                assert(x0 == vv[vv.len() - 1]);
                assert(vv.to_multiset().count(x0) > 0);
                assert(seq_ms(l@).add(v@.to_multiset()) =~= v0.to_multiset());
            }
        }
        proof {
            assert(v@.to_multiset().len() == 0);
            assert(v@.to_multiset() =~= Multiset::<T>::empty());
            assert(seq_ms(l@) =~= v0.to_multiset());
        }
        PairingHeap::merge_pairs(l)
    }

    /// Consumes the heap into a cursor that hands the values out in
    /// non-decreasing order.
    pub fn into_iter(self) -> (r: IntoIter<T>)
        requires
            self.wf(),
        ensures
            r.wf(),
            r@ == self@,
    {
        IntoIter { heap: self }
    }
}

impl<T: TotalOrder> Default for PairingHeap<T> {
    fn default() -> (r: Self)
        ensures
            r.wf(),
            r@ == Multiset::<T>::empty(),
    {
        PairingHeap::Empty
    }
}

/// A consuming cursor over a heap; its view is the multiset of values still
/// to come, and each step yields the least of them.
pub struct IntoIter<T: TotalOrder> {
    pub(crate) heap: PairingHeap<T>,
}

impl<T: TotalOrder> IntoIter<T> {
    /// The values the cursor has not handed out yet.
    pub open(crate) spec fn remaining(&self) -> Multiset<T> {
        self.heap.ms()
    }

    /// The heap the cursor drains still satisfies the heap property.
    pub open(crate) spec fn wf(&self) -> bool {
        self.heap.wf()
    }

    pub fn next(&mut self) -> (r: Option<T>)
        requires
            old(self).wf(),
        ensures
            final(self).wf(),
            match r {
                None => old(self)@ == Multiset::<T>::empty() && final(self)@ == old(self)@,
                Some(v) => old(self)@.count(v) > 0 && ge_all(old(self)@, v) && final(self)@
                    == old(self)@.remove(v),
            },
    {
        self.heap.pop_min()
    }
}

impl<T: TotalOrder> View for IntoIter<T> {
    type V = Multiset<T>;

    open spec fn view(&self) -> Multiset<T> {
        self.remaining()
    }
}

} // verus!
