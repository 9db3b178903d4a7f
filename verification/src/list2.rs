use vstd::prelude::*;
use crate::text::{join, joined, render_all, shown, texts};
use crate::sequence::{back, front, popped_back, popped_front, pushed_back, pushed_front};

verus! {

/// The slot of the head sentinel, which closes the chain.
const HEAD: usize = 0;

/// The slot of the tail sentinel, from which the chain is walked.
const TAIL: usize = 1;

/// One node: a value, the slot of the node after it and the slot of the node
/// before it. A node that stands in no chain has neither.
pub struct Node<T: Default> {
    next: Option<usize>,
    prev: Option<usize>,
    val: T,
}

impl<T: Default> Node<T> {
    /// A node that holds `val` and is linked to nothing.
    pub fn new(val: T) -> (node: Self)
        ensures
            node.value() == val,
            node.next_slot().is_none(),
            node.prev_slot().is_none(),
    {
        Node { next: None, prev: None, val }
    }

    /// The value the node holds.
    pub closed spec fn value(&self) -> T {
        self.val
    }

    /// The slot of the node after this one, if it is linked.
    pub closed spec fn next_slot(&self) -> Option<usize> {
        self.next
    }

    /// The slot of the node before this one, if it is linked.
    pub closed spec fn prev_slot(&self) -> Option<usize> {
        self.prev
    }
}

impl<T: Default> Default for Node<T> {
    /// A node that holds the element type's default value and is linked to
    /// nothing.
    fn default() -> (node: Self)
        ensures
            node.next_slot().is_none(),
            node.prev_slot().is_none(),
    {
        Node::new(T::default())
    }
}

/// A handle on one node of a list: it names the node, not its place in the
/// traversal, and stays good while the node stands in the chain.
#[derive(Clone, Copy, Debug, PartialEq, Eq, Structural)]
pub struct NodeRef {
    slot: usize,
}

/// A two-ended list: a ring of nodes that runs from a tail sentinel through
/// the stored nodes to a head sentinel and back to the tail.
///
/// The nodes live in slots of one vector and name their neighbours by slot, so
/// a link forward owns nothing and a link backward cannot dangle. The vector
/// alone owns the nodes: when the list is dropped it releases each of them
/// once, sentinels and detached nodes included, one after the other and
/// whatever the links say; there is no ring of owners to take apart first.
///
/// The view is the sequence of stored values as a walk from the tail sentinel
/// to the head sentinel meets them: the back of the list first, its front
/// last.
pub struct DoubleLinkList<T: Default> {
    nodes: Vec<Node<T>>,
    free: Vec<usize>,
    size: usize,
    order: Ghost<Seq<usize>>,
    loose: Ghost<nat>,
}

impl<T: Default> View for DoubleLinkList<T> {
    type V = Seq<T>;

    closed spec fn view(&self) -> Seq<T> {
        Seq::new(self.order@.len(), |k: int| self.nodes@[self.order@[k] as int].val)
    }
}

impl<T: Default> DoubleLinkList<T> {
    /// The slot that a walk from the tail sentinel stands on after `k + 1`
    /// steps: the tail sentinel before the first step, the head sentinel
    /// after the last stored node.
    spec fn at(&self, k: int) -> usize {
        if k < 0 {
            TAIL
        } else if k >= self.order@.len() {
            HEAD
        } else {
            self.order@[k]
        }
    }

    /// Whether the nodes at steps `k` and `k + 1` of the walk name each other.
    spec fn linked(&self, k: int) -> bool {
        &&& self.nodes@[self.at(k) as int].next == Some(self.at(k + 1))
        &&& self.nodes@[self.at(k + 1) as int].prev == Some(self.at(k))
    }

    /// The structural invariant: the two sentinels and the stored nodes form
    /// one ring in which every node is the predecessor of its successor, no
    /// slot is used twice, and the counter is the number of stored nodes plus
    /// the number of nodes detached so far.
    pub closed spec fn wf(&self) -> bool {
        &&& self.nodes@.len() == 2 + self.order@.len() + self.free@.len() + self.loose@
        &&& self.size == self.order@.len() + self.loose@
        &&& self.order@.no_duplicates()
        &&& self.free@.no_duplicates()
        &&& forall|k: int|
            0 <= k < self.order@.len() ==> 2 <= #[trigger] self.order@[k] < self.nodes@.len()
        &&& forall|j: int|
            0 <= j < self.free@.len() ==> 2 <= #[trigger] self.free@[j] < self.nodes@.len()
        &&& forall|k: int, j: int|
            0 <= k < self.order@.len() && 0 <= j < self.free@.len() ==> #[trigger] self.order@[k]
                != #[trigger] self.free@[j]
        &&& forall|k: int| -1 <= k < self.order@.len() ==> #[trigger] self.linked(k)
        &&& self.nodes@[HEAD as int].next == Some(TAIL)
        &&& self.nodes@[TAIL as int].prev == Some(HEAD)
    }

    /// The handles of the stored nodes, in the order of the view.
    pub closed spec fn refs(&self) -> Seq<NodeRef> {
        Seq::new(self.order@.len(), |k: int| NodeRef { slot: self.order@[k] })
    }

    /// The value of the size counter.
    pub closed spec fn spec_size(&self) -> usize {
        self.size
    }

    /// How many nodes were detached from the chain without being released.
    pub closed spec fn detached(&self) -> nat {
        self.loose@
    }

    /// The size counter: the number of stored nodes, plus the nodes that were
    /// detached, which it goes on counting.
    #[verifier::when_used_as_spec(spec_size)]
    pub fn size(&self) -> (n: usize)
        ensures
            n == self.size(),
    {
        self.size
    }

    /// Two steps of the walk stand on the same slot only if they are the same
    /// step.
    proof fn steps_differ(&self, i: int, j: int)
        requires
            self.wf(),
            -1 <= i <= self.order@.len(),
            -1 <= j <= self.order@.len(),
            i != j,
        ensures
            self.at(i) != self.at(j),
    {
        if 0 <= i < self.order@.len() && 0 <= j < self.order@.len() {
            assert(self.order@[i] != self.order@[j]);
        }
    }

    /// The size counter is the number of nodes that a walk meets plus the
    /// number of nodes detached so far, and each handle names one node: so as
    /// long as nothing was detached, the counter is the number of stored
    /// nodes.
    pub proof fn counter_matches_walk(&self)
        requires
            self.wf(),
        ensures
            self.size() == self@.len() + self.detached(),
            self.refs().len() == self@.len(),
            self.refs().no_duplicates(),
    {
        assert forall|i: int, j: int| 0 <= i < self.refs().len() && 0 <= j < self.refs().len() && i != j implies self.refs()[i]
            != self.refs()[j] by {
            assert(self.order@[i] != self.order@[j]);
        }
    }

    /// An empty list: the two sentinels, each the neighbour of the other.
    pub fn new() -> (list: Self)
        ensures
            list.wf(),
            list@ == Seq::<T>::empty(),
            list.refs() == Seq::<NodeRef>::empty(),
            list.size() == 0,
            list.detached() == 0,
    {
        let mut head: Node<T> = Node::default();
        let mut tail: Node<T> = Node::default();
        tail.next = Some(HEAD);
        head.prev = Some(TAIL);
        head.next = Some(TAIL);
        tail.prev = Some(HEAD);
        let mut nodes: Vec<Node<T>> = Vec::new();
        nodes.push(head);
        nodes.push(tail);
        let list = DoubleLinkList {
            nodes,
            free: Vec::new(),
            size: 0,
            order: Ghost(Seq::empty()),
            loose: Ghost(0),
        };
        proof {
            assert(list.linked(-1));
            assert(list@ =~= Seq::<T>::empty());
            assert(list.refs() =~= Seq::<NodeRef>::empty());
        }
        list
    }

    /// Puts `node` into a slot that no node uses: one that was released
    /// before, if there is one, else a new slot at the end.
    fn place(nodes: &mut Vec<Node<T>>, free: &mut Vec<usize>, node: Node<T>) -> (t: usize)
        requires
            forall|j: int| 0 <= j < old(free)@.len() ==> #[trigger] old(free)@[j] < old(nodes)@.len(),
        ensures
            t < final(nodes)@.len(),
            final(nodes)@[t as int] == node,
            forall|i: int|
                0 <= i < old(nodes)@.len() && i != t ==> #[trigger] final(nodes)@[i] == old(nodes)@[i],
            old(free)@.len() > 0 ==> t == old(free)@.last() && final(free)@ == old(free)@.drop_last()
                && final(nodes)@.len() == old(nodes)@.len(),
            old(free)@.len() == 0 ==> t == old(nodes)@.len() && final(free)@ == old(free)@
                && final(nodes)@.len() == old(nodes)@.len() + 1,
    {
        match free.pop() {
            Some(t) => {
                nodes[t] = node;
                t
            },
            None => {
                nodes.push(node);
                nodes.len() - 1
            },
        }
    }

    /// Whether `self` is `pre` with the node in slot `t`, holding `val`, linked
    /// in at step `k` of the walk, and nothing else changed.
    spec fn inserted_into(&self, pre: &Self, k: int, t: usize, val: T) -> bool {
        let p = pre.at(k - 1);
        let q = pre.at(k);
        &&& 2 <= t < self.nodes@.len()
        &&& forall|i: int| 0 <= i < pre.order@.len() ==> #[trigger] pre.order@[i] != t
        &&& forall|j: int| 0 <= j < self.free@.len() ==> #[trigger] self.free@[j] != t
        &&& self.order@ == pre.order@.insert(k, t)
        &&& self.loose@ == pre.loose@
        &&& self.size == pre.size + 1
        &&& self.free@.len() <= pre.free@.len()
        &&& forall|j: int| 0 <= j < self.free@.len() ==> #[trigger] self.free@[j] == pre.free@[j]
        &&& self.nodes@.len() + pre.free@.len() == pre.nodes@.len() + self.free@.len() + 1
        &&& self.nodes@.len() >= pre.nodes@.len()
        &&& forall|i: int|
            0 <= i < pre.nodes@.len() && i != t && i != p && i != q ==> #[trigger] self.nodes@[i]
                == pre.nodes@[i]
        &&& self.nodes@[t as int].next == Some(q)
        &&& self.nodes@[t as int].prev == Some(p)
        &&& self.nodes@[t as int].val == val
        &&& self.nodes@[p as int].next == Some(t)
        &&& self.nodes@[p as int].prev == pre.nodes@[p as int].prev
        &&& self.nodes@[p as int].val == pre.nodes@[p as int].val
        &&& self.nodes@[q as int].prev == Some(t)
        &&& self.nodes@[q as int].next == pre.nodes@[q as int].next
        &&& self.nodes@[q as int].val == pre.nodes@[q as int].val
    }

    /// After an insertion the walk passes the old nodes in their old order,
    /// with the new node at step `k`, and every step is linked.
    proof fn inserted_is_linked(&self, pre: &Self, k: int, t: usize, val: T)
        requires
            pre.wf(),
            0 <= k <= pre.order@.len(),
            self.inserted_into(pre, k, t, val),
        ensures
            forall|j: int| -1 <= j < self.order@.len() ==> #[trigger] self.linked(j),
            self.nodes@[HEAD as int].next == Some(TAIL),
            self.nodes@[TAIL as int].prev == Some(HEAD),
    {
        let n = pre.order@.len() as int;
        let p = pre.at(k - 1);
        let q = pre.at(k);
        assert forall|j: int| -1 <= j < n + 1 implies #[trigger] self.linked(j) by {
            let a = self.at(j);
            let b = self.at(j + 1);
            if j < k - 1 {
                assert(a == pre.at(j) && b == pre.at(j + 1));
                assert(pre.linked(j));
                pre.steps_differ(j, k - 1);
                pre.steps_differ(j + 1, k);
                assert(a != p && a != t);
                assert(b != q && b != t);
                assert(self.nodes@[a as int].next == pre.nodes@[a as int].next);
                assert(self.nodes@[b as int].prev == pre.nodes@[b as int].prev);
            } else if j == k - 1 {
                assert(a == p && b == t);
            } else if j == k {
                assert(a == t && b == q);
            } else {
                assert(a == pre.at(j - 1) && b == pre.at(j));
                assert(pre.linked(j - 1));
                pre.steps_differ(j - 1, k - 1);
                pre.steps_differ(j, k);
                assert(a != p && a != t);
                assert(b != q && b != t);
                assert(self.nodes@[a as int].next == pre.nodes@[a as int].next);
                assert(self.nodes@[b as int].prev == pre.nodes@[b as int].prev);
            }
        }
        assert(self.nodes@[HEAD as int].next == Some(TAIL)) by {
            pre.steps_differ(n, k - 1);
            assert(pre.at(n) == HEAD);
            assert(HEAD != p && HEAD != t);
        }
        assert(self.nodes@[TAIL as int].prev == Some(HEAD)) by {
            pre.steps_differ(-1, k);
            assert(pre.at(-1) == TAIL);
            assert(TAIL != q && TAIL != t);
        }
    }

    /// After an insertion no slot is used twice, and the view and the handles
    /// are the old ones with the new node's put in at step `k`.
    proof fn inserted_is_counted(&self, pre: &Self, k: int, t: usize, val: T)
        requires
            pre.wf(),
            0 <= k <= pre.order@.len(),
            self.inserted_into(pre, k, t, val),
        ensures
            self.order@.no_duplicates(),
            self.free@.no_duplicates(),
            forall|i: int| 0 <= i < self.order@.len() ==> 2 <= #[trigger] self.order@[i] < self.nodes@.len(),
            forall|j: int| 0 <= j < self.free@.len() ==> 2 <= #[trigger] self.free@[j] < self.nodes@.len(),
            forall|i: int, j: int|
                0 <= i < self.order@.len() && 0 <= j < self.free@.len() ==> #[trigger] self.order@[i]
                    != #[trigger] self.free@[j],
            self@ == pre@.insert(k, val),
            self.refs().remove(k) == pre.refs(),
            !pre.refs().contains(self.refs()[k]),
    {
        let n = pre.order@.len() as int;
        let old_order = pre.order@;
        let new_order = self.order@;
        assert forall|i: int| 0 <= i < n + 1 implies #[trigger] new_order[i] == (if i < k {
            old_order[i]
        } else if i == k {
            t
        } else {
            old_order[i - 1]
        }) by {}
        assert forall|a: int, b: int| 0 <= a < n + 1 && 0 <= b < n + 1 && a != b implies new_order[a]
            != new_order[b] by {
            let oa = if a < k { a } else { a - 1 };
            let ob = if b < k { b } else { b - 1 };
            if a != k && b != k {
                assert(old_order[oa] != old_order[ob]);
            } else if a != k {
                assert(old_order[oa] != t);
            } else {
                assert(old_order[ob] != t);
            }
        }
        assert forall|a: int, b: int| 0 <= a < self.free@.len() && 0 <= b < self.free@.len() && a != b implies self.free@[a]
            != self.free@[b] by {
            assert(self.free@[a] == pre.free@[a]);
            assert(self.free@[b] == pre.free@[b]);
        }
        assert forall|i: int| 0 <= i < n + 1 implies 2 <= #[trigger] new_order[i] < self.nodes@.len() by {
            if i != k {
                let oi = if i < k { i } else { i - 1 };
                assert(2 <= old_order[oi] < pre.nodes@.len());
            }
        }
        assert forall|j: int| 0 <= j < self.free@.len() implies 2 <= #[trigger] self.free@[j]
            < self.nodes@.len() by {
            assert(self.free@[j] == pre.free@[j]);
        }
        assert forall|i: int, j: int| 0 <= i < n + 1 && 0 <= j < self.free@.len() implies #[trigger] new_order[i]
            != #[trigger] self.free@[j] by {
            assert(self.free@[j] == pre.free@[j]);
            if i != k {
                let oi = if i < k { i } else { i - 1 };
                assert(old_order[oi] != pre.free@[j]);
            }
        }
        assert forall|i: int| 0 <= i < n + 1 implies #[trigger] self@[i] == pre@.insert(k, val)[i] by {
            if i != k {
                let oi = if i < k { i } else { i - 1 };
                let slot = old_order[oi];
                assert(new_order[i] == slot);
                assert(slot != t);
                assert(self.nodes@[slot as int].val == pre.nodes@[slot as int].val);
            }
        }
        assert(self@ =~= pre@.insert(k, val));
        assert(self.refs().remove(k) =~= pre.refs());
        if pre.refs().contains(self.refs()[k]) {
            let i = choose|i: int| 0 <= i < n && pre.refs()[i] == self.refs()[k];
            assert(old_order[i] == t);
        }
    }

    /// Links a new node that holds `val` between the neighbours `p` and `q`,
    /// which stand at steps `k - 1` and `k` of the walk.
    fn insert_between(&mut self, p: usize, q: usize, val: T, Ghost(k): Ghost<int>)
        requires
            old(self).wf(),
            0 <= k <= old(self).order@.len(),
            p == old(self).at(k - 1),
            q == old(self).at(k),
        ensures
            final(self).wf(),
            final(self)@ == old(self)@.insert(k, val),
            final(self).refs().len() == old(self).refs().len() + 1,
            final(self).refs().remove(k) == old(self).refs(),
            !old(self).refs().contains(final(self).refs()[k]),
            final(self).size() == old(self).size() + 1,
            final(self).detached() == old(self).detached(),
    {
        proof {
            old(self).steps_differ(k - 1, k);
        }
        let mut node = Node::new(val);
        node.next = Some(q);
        node.prev = Some(p);
        let t = Self::place(&mut self.nodes, &mut self.free, node);
        proof {
            if old(self).free@.len() > 0 {
                let last = old(self).free@.len() - 1;
                assert(t == old(self).free@[last]);
                assert forall|j: int| 0 <= j < self.free@.len() implies #[trigger] self.free@[j] != t by {
                    assert(self.free@[j] == old(self).free@[j]);
                }
            }
            assert(t != p && t != q);
        }
        self.nodes[p].next = Some(t);
        self.nodes[q].prev = Some(t);
        assert(self.size + 2 < self.nodes.len());
        self.size = self.size + 1;
        proof {
            self.order@ = old(self).order@.insert(k, t);
        }
        proof {
            assert(self.inserted_into(old(self), k, t, val));
            self.inserted_is_linked(old(self), k, t, val);
            self.inserted_is_counted(old(self), k, t, val);
        }
    }

    /// Stores `val` at the back: next to the tail sentinel, where a walk
    /// meets it first.
    pub fn push_back(&mut self, val: T)
        requires
            old(self).wf(),
        ensures
            final(self).wf(),
            final(self)@ == pushed_back(old(self)@, val),
            final(self).refs().len() == old(self).refs().len() + 1,
            final(self).refs().drop_first() == old(self).refs(),
            !old(self).refs().contains(final(self).refs().first()),
            final(self).size() == old(self).size() + 1,
            final(self).detached() == old(self).detached(),
    {
        proof {
            assert(self.linked(-1));
        }
        let p = TAIL;
        let q = self.nodes[p].next.unwrap();
        self.insert_between(p, q, val, Ghost(0));
        proof {
            assert(old(self)@.insert(0, val) =~= pushed_back(old(self)@, val));
            assert(self.refs().remove(0) =~= self.refs().drop_first());
        }
    }

    /// Stores `val` at the front: next to the head sentinel, where a walk
    /// meets it last.
    pub fn push_front(&mut self, val: T)
        requires
            old(self).wf(),
        ensures
            final(self).wf(),
            final(self)@ == pushed_front(old(self)@, val),
            final(self).refs().len() == old(self).refs().len() + 1,
            final(self).refs().drop_last() == old(self).refs(),
            !old(self).refs().contains(final(self).refs().last()),
            final(self).size() == old(self).size() + 1,
            final(self).detached() == old(self).detached(),
    {
        let ghost n = self.order@.len() as int;
        proof {
            assert(self.linked(n - 1));
        }
        let q = HEAD;
        let p = self.nodes[q].prev.unwrap();
        self.insert_between(p, q, val, Ghost(n));
        proof {
            assert(old(self)@.insert(n, val) =~= pushed_front(old(self)@, val));
            assert(self.refs().remove(n) =~= self.refs().drop_last());
        }
    }

    /// Whether `self` is `pre` with the node in slot `t`, which stood at step
    /// `k` of the walk, taken out of the chain, and nothing else changed.
    spec fn removed_from(&self, pre: &Self, k: int, t: usize) -> bool {
        let p = pre.at(k - 1);
        let q = pre.at(k + 1);
        &&& t == pre.order@[k]
        &&& self.order@ == pre.order@.remove(k)
        &&& self.loose@ == pre.loose@ + 1
        &&& self.size == pre.size
        &&& self.free@ == pre.free@
        &&& self.nodes@.len() == pre.nodes@.len()
        &&& forall|i: int|
            0 <= i < pre.nodes@.len() && i != t && i != p && i != q ==> #[trigger] self.nodes@[i]
                == pre.nodes@[i]
        &&& self.nodes@[t as int].next.is_none()
        &&& self.nodes@[t as int].prev.is_none()
        &&& self.nodes@[t as int].val == pre.nodes@[t as int].val
        &&& self.nodes@[p as int].next == Some(q)
        &&& self.nodes@[p as int].prev == pre.nodes@[p as int].prev
        &&& self.nodes@[p as int].val == pre.nodes@[p as int].val
        &&& self.nodes@[q as int].prev == Some(p)
        &&& self.nodes@[q as int].next == pre.nodes@[q as int].next
        &&& self.nodes@[q as int].val == pre.nodes@[q as int].val
    }

    /// After a removal the walk passes the remaining nodes in their old
    /// order, and every step is linked.
    proof fn removed_is_linked(&self, pre: &Self, k: int, t: usize)
        requires
            pre.wf(),
            0 <= k < pre.order@.len(),
            self.removed_from(pre, k, t),
        ensures
            forall|j: int| -1 <= j < self.order@.len() ==> #[trigger] self.linked(j),
            self.nodes@[HEAD as int].next == Some(TAIL),
            self.nodes@[TAIL as int].prev == Some(HEAD),
    {
        let n = pre.order@.len() as int;
        let p = pre.at(k - 1);
        let q = pre.at(k + 1);
        assert(t == pre.at(k));
        assert forall|j: int| -1 <= j < n - 1 implies #[trigger] self.linked(j) by {
            let a = self.at(j);
            let b = self.at(j + 1);
            if j < k - 1 {
                assert(a == pre.at(j) && b == pre.at(j + 1));
                assert(pre.linked(j));
                pre.steps_differ(j, k - 1);
                pre.steps_differ(j, k);
                pre.steps_differ(j + 1, k + 1);
                pre.steps_differ(j + 1, k);
                assert(a != p && a != t);
                assert(b != q && b != t);
                assert(self.nodes@[a as int].next == pre.nodes@[a as int].next);
                assert(self.nodes@[b as int].prev == pre.nodes@[b as int].prev);
            } else if j == k - 1 {
                assert(a == p && b == q);
            } else {
                assert(a == pre.at(j + 1) && b == pre.at(j + 2));
                assert(pre.linked(j + 1));
                pre.steps_differ(j + 1, k - 1);
                pre.steps_differ(j + 1, k);
                pre.steps_differ(j + 2, k + 1);
                pre.steps_differ(j + 2, k);
                assert(a != p && a != t);
                assert(b != q && b != t);
                assert(self.nodes@[a as int].next == pre.nodes@[a as int].next);
                assert(self.nodes@[b as int].prev == pre.nodes@[b as int].prev);
            }
        }
        assert(self.nodes@[HEAD as int].next == Some(TAIL)) by {
            pre.steps_differ(n, k - 1);
            pre.steps_differ(n, k);
            assert(pre.at(n) == HEAD);
            assert(HEAD != p && HEAD != t);
        }
        assert(self.nodes@[TAIL as int].prev == Some(HEAD)) by {
            pre.steps_differ(-1, k + 1);
            pre.steps_differ(-1, k);
            assert(pre.at(-1) == TAIL);
            assert(TAIL != q && TAIL != t);
        }
    }

    /// After a removal no slot is used twice, the removed node's slot is in
    /// no list, and the view and the handles are the old ones without the
    /// entry at step `k`.
    proof fn removed_is_counted(&self, pre: &Self, k: int, t: usize)
        requires
            pre.wf(),
            0 <= k < pre.order@.len(),
            self.removed_from(pre, k, t),
        ensures
            self.order@.no_duplicates(),
            forall|i: int| 0 <= i < self.order@.len() ==> 2 <= #[trigger] self.order@[i] < self.nodes@.len(),
            forall|i: int, j: int|
                0 <= i < self.order@.len() && 0 <= j < self.free@.len() ==> #[trigger] self.order@[i]
                    != #[trigger] self.free@[j],
            forall|i: int| 0 <= i < self.order@.len() ==> #[trigger] self.order@[i] != t,
            forall|j: int| 0 <= j < self.free@.len() ==> #[trigger] self.free@[j] != t,
            self@ == pre@.remove(k),
            self.refs() == pre.refs().remove(k),
    {
        let n = pre.order@.len() as int;
        let old_order = pre.order@;
        let new_order = self.order@;
        assert forall|i: int| 0 <= i < n - 1 implies #[trigger] new_order[i] == (if i < k {
            old_order[i]
        } else {
            old_order[i + 1]
        }) by {}
        assert forall|a: int, b: int| 0 <= a < n - 1 && 0 <= b < n - 1 && a != b implies new_order[a]
            != new_order[b] by {
            let oa = if a < k { a } else { a + 1 };
            let ob = if b < k { b } else { b + 1 };
            assert(old_order[oa] != old_order[ob]);
        }
        assert forall|i: int| 0 <= i < n - 1 implies 2 <= #[trigger] new_order[i] < self.nodes@.len()
            && new_order[i] != t by {
            let oi = if i < k { i } else { i + 1 };
            assert(2 <= old_order[oi] < pre.nodes@.len());
            assert(old_order[oi] != old_order[k]);
        }
        assert forall|i: int, j: int| 0 <= i < n - 1 && 0 <= j < self.free@.len() implies #[trigger] new_order[i]
            != #[trigger] self.free@[j] by {
            let oi = if i < k { i } else { i + 1 };
            assert(old_order[oi] != pre.free@[j]);
        }
        assert forall|j: int| 0 <= j < self.free@.len() implies #[trigger] self.free@[j] != t by {
            assert(old_order[k] != pre.free@[j]);
        }
        assert forall|i: int| 0 <= i < n - 1 implies #[trigger] self@[i] == pre@.remove(k)[i] by {
            let oi = if i < k { i } else { i + 1 };
            let slot = old_order[oi];
            assert(new_order[i] == slot);
            assert(slot != t);
            assert(self.nodes@[slot as int].val == pre.nodes@[slot as int].val);
        }
        assert(self@ =~= pre@.remove(k));
        assert(self.refs() =~= pre.refs().remove(k));
    }

    /// Takes the node in slot `t`, which stands at step `k` of the walk, out
    /// of the chain: its neighbours become each other's, and the node keeps
    /// its value and its slot but names no neighbour any more.
    fn unlink(&mut self, t: usize, Ghost(k): Ghost<int>)
        requires
            old(self).wf(),
            0 <= k < old(self).order@.len(),
            t == old(self).order@[k],
        ensures
            final(self).wf(),
            final(self)@ == old(self)@.remove(k),
            final(self).refs() == old(self).refs().remove(k),
            final(self).size() == old(self).size(),
            final(self).detached() == old(self).detached() + 1,
            final(self).loose@ > 0,
            2 <= t < final(self).nodes@.len(),
            forall|i: int| 0 <= i < final(self).order@.len() ==> #[trigger] final(self).order@[i] != t,
            forall|j: int| 0 <= j < final(self).free@.len() ==> #[trigger] final(self).free@[j] != t,
            final(self).nodes@[t as int].val == old(self).nodes@[t as int].val,
    {
        proof {
            assert(self.linked(k - 1));
            assert(self.linked(k));
            self.steps_differ(k - 1, k + 1);
            self.steps_differ(k - 1, k);
            self.steps_differ(k, k + 1);
        }
        let p = self.nodes[t].prev.unwrap();
        let q = self.nodes[t].next.unwrap();
        self.nodes[t].prev = None;
        self.nodes[t].next = None;
        self.nodes[p].next = Some(q);
        self.nodes[q].prev = Some(p);
        proof {
            self.order@ = old(self).order@.remove(k);
            self.loose@ = old(self).loose@ + 1;
        }
        proof {
            assert(self.removed_from(old(self), k, t));
            self.removed_is_linked(old(self), k, t);
            self.removed_is_counted(old(self), k, t);
        }
    }

    /// Gives the slot `t` of a node that `unlink` took out of the chain back
    /// for later use, and hands out the value it held.
    fn release(&mut self, t: usize) -> (val: T)
        requires
            old(self).wf(),
            old(self).loose@ > 0,
            2 <= t < old(self).nodes@.len(),
            forall|i: int| 0 <= i < old(self).order@.len() ==> #[trigger] old(self).order@[i] != t,
            forall|j: int| 0 <= j < old(self).free@.len() ==> #[trigger] old(self).free@[j] != t,
        ensures
            final(self).wf(),
            val == old(self).nodes@[t as int].val,
            final(self)@ == old(self)@,
            final(self).refs() == old(self).refs(),
            final(self).size() == old(self).size() - 1,
            final(self).detached() == old(self).detached() - 1,
    {
        let mut val = T::default();
        core::mem::swap(&mut val, &mut self.nodes[t].val);
        self.free.push(t);
        self.size = self.size - 1;
        proof {
            self.loose@ = (old(self).loose@ - 1) as nat;
        }
        proof {
            assert forall|i: int| -1 <= i <= self.order@.len() implies #[trigger] self.at(i) == old(self).at(i) by {}
            assert forall|j: int| -1 <= j < self.order@.len() implies #[trigger] self.linked(j) by {
                assert(old(self).linked(j));
            }
            assert(self.free@.no_duplicates());
            assert(self@ =~= old(self)@);
            assert(self.refs() =~= old(self).refs());
        }
        val
    }

    /// Removes the node at the back, the one a walk meets first, and returns
    /// its value; `None`, and nothing changes, when the list stores nothing.
    pub fn pop_back(&mut self) -> (out: Option<T>)
        requires
            old(self).wf(),
        ensures
            final(self).wf(),
            out == back(old(self)@),
            final(self)@ == popped_back(old(self)@),
            final(self).refs() == popped_back(old(self).refs()),
            final(self).size() == old(self).size() - (if out.is_some() { 1int } else { 0int }),
            final(self).detached() == old(self).detached(),
    {
        proof {
            assert(self.linked(-1));
            if self.order@.len() > 0 {
                self.steps_differ(0, self.order@.len() as int);
            }
        }
        let t = self.nodes[TAIL].next.unwrap();
        if t == HEAD {
            return None;
        }
        self.unlink(t, Ghost(0));
        let val = self.release(t);
        proof {
            assert(old(self)@.remove(0) =~= popped_back(old(self)@));
            assert(old(self).refs().remove(0) =~= popped_back(old(self).refs()));
        }
        Some(val)
    }

    /// Removes the node at the front, the one a walk meets last, and returns
    /// its value; `None`, and nothing changes, when the list stores nothing.
    pub fn pop_front(&mut self) -> (out: Option<T>)
        requires
            old(self).wf(),
        ensures
            final(self).wf(),
            out == front(old(self)@),
            final(self)@ == popped_front(old(self)@),
            final(self).refs() == popped_front(old(self).refs()),
            final(self).size() == old(self).size() - (if out.is_some() { 1int } else { 0int }),
            final(self).detached() == old(self).detached(),
    {
        let ghost n = self.order@.len() as int;
        proof {
            assert(self.linked(n - 1));
            if n > 0 {
                self.steps_differ(-1, n - 1);
            }
        }
        let t = self.nodes[HEAD].prev.unwrap();
        if t == TAIL {
            return None;
        }
        self.unlink(t, Ghost(n - 1));
        let val = self.release(t);
        proof {
            assert(old(self)@.remove(n - 1) =~= popped_front(old(self)@));
            assert(old(self).refs().remove(n - 1) =~= popped_front(old(self).refs()));
        }
        Some(val)
    }

    /// Detaches the node that `node` names from the chain without releasing
    /// it: its neighbours become each other's. The size counter is left as it
    /// is and goes on counting the node.
    pub fn split_at(&mut self, node: &NodeRef)
        requires
            old(self).wf(),
            old(self).refs().contains(*node),
        ensures
            final(self).wf(),
            final(self)@ == old(self)@.remove(old(self).refs().index_of(*node)),
            final(self).refs() == old(self).refs().remove(old(self).refs().index_of(*node)),
            final(self).size() == old(self).size(),
            final(self).detached() == old(self).detached() + 1,
    {
        let ghost k = self.refs().index_of(*node);
        proof {
            assert(self.refs()[k] == *node);
        }
        self.unlink(node.slot, Ghost(k));
    }

    /// The handle of the node that a walk from the tail sentinel meets after
    /// `pos` others, or `None` where the list stores no more than `pos` nodes.
    pub fn node_at(&self, pos: usize) -> (out: Option<NodeRef>)
        requires
            self.wf(),
        ensures
            pos < self@.len() ==> out == Some(self.refs()[pos as int]),
            pos >= self@.len() ==> out.is_none(),
    {
        let ghost n = self.order@.len() as int;
        proof {
            assert(self.linked(-1));
        }
        let mut cur = self.nodes[TAIL].next.unwrap();
        let mut i: usize = 0;
        while cur != HEAD && i < pos
            invariant
                self.wf(),
                n == self.order@.len(),
                0 <= i <= pos,
                i <= n,
                cur == self.at(i as int),
            decreases pos - i,
        {
            proof {
                if i >= n {
                    assert(cur == HEAD);
                }
                assert(self.linked(i as int));
            }
            cur = self.nodes[cur].next.unwrap();
            i = i + 1;
        }
        if cur == HEAD {
            proof {
                if i < n {
                    self.steps_differ(i as int, n);
                }
            }
            None
        } else {
            Some(NodeRef { slot: cur })
        }
    }

    /// The stored values in the order of a walk from the tail sentinel to the
    /// head sentinel, the sentinels left out.
    pub fn traverse(&self) -> (out: Vec<&T>)
        requires
            self.wf(),
        ensures
            out@.len() == self@.len(),
            forall|i: int| 0 <= i < out@.len() ==> *out@[i] == self@[i],
    {
        let ghost n = self.order@.len() as int;
        proof {
            assert(self.linked(-1));
        }
        let mut out: Vec<&T> = Vec::new();
        let mut cur = self.nodes[TAIL].next.unwrap();
        while cur != HEAD
            invariant
                self.wf(),
                n == self.order@.len(),
                out@.len() <= n,
                cur == self.at(out@.len() as int),
                forall|i: int| 0 <= i < out@.len() ==> *out@[i] == self@[i],
            decreases n - out@.len(),
        {
            proof {
                if out@.len() >= n {
                    assert(cur == HEAD);
                }
                assert(self.linked(out@.len() as int));
            }
            out.push(&self.nodes[cur].val);
            cur = self.nodes[cur].next.unwrap();
        }
        proof {
            if out@.len() < n {
                self.steps_differ(out@.len() as int, n);
            }
        }
        out
    }
}

impl<T: Default> Default for DoubleLinkList<T> {
    /// An empty list.
    fn default() -> (list: Self)
        ensures
            list.wf(),
            list@ == Seq::<T>::empty(),
            list.refs() == Seq::<NodeRef>::empty(),
            list.size() == 0,
            list.detached() == 0,
    {
        Self::new()
    }
}

impl<T: Default + core::fmt::Display> DoubleLinkList<T> {
    /// The list as text: each stored value as its `Display` gives it, in the
    /// order of a walk from the tail sentinel, with an arrow between each two
    /// neighbours.
    pub fn to_string(&self) -> (out: String)
        requires
            self.wf(),
        ensures
            exists|parts: Seq<String>| shown(self@, parts) && out@ == joined(texts(parts), " -> "@),
    {
        let vals = self.traverse();
        let parts = render_all(&vals);
        proof {
            assert(Seq::new(vals@.len(), |i: int| *vals@[i]) =~= self@);
        }
        join(&parts, " -> ")
    }
}

} // verus!
