use vstd::prelude::*;
use vstd::string::StringExecFns;
use crate::text::{join, joined, render_all, shown, texts};

verus! {

/// One cell of the chain: a value and the exclusively owned rest of the chain.
/// Its fields are the list's own business.
#[derive(Debug)]
pub struct Node<T> {
    val: T,
    next: Option<Box<Node<T>>>,
}

/// The values held by a chain, first cell first.
spec fn chain_view<T>(link: Option<Box<Node<T>>>) -> Seq<T>
    decreases link,
{
    match link {
        None => Seq::empty(),
        Some(node) => seq![node.val] + chain_view(node.next),
    }
}

/// A stack kept as a singly linked chain in which every cell has one owner.
///
/// Its view is the sequence of stored values, the most recently pushed first.
#[derive(Debug)]
pub struct List<T> {
    head: Option<Box<Node<T>>>,
}

impl<T> View for List<T> {
    type V = Seq<T>;

    closed spec fn view(&self) -> Seq<T> {
        chain_view(self.head)
    }
}

impl<T> List<T> {
    /// An empty list.
    pub fn new() -> (list: Self)
        ensures
            list@ == Seq::<T>::empty(),
    {
        List { head: None }
    }

    /// Puts `v` in front of everything already stored.
    pub fn push(&mut self, v: T)
        ensures
            final(self)@ == seq![v] + old(self)@,
    {
        let node = Node { val: v, next: self.head.take() };
        self.head = Some(Box::new(node));
    }

    /// Removes and returns the most recently pushed value, if there is one.
    pub fn pop(&mut self) -> (out: Option<T>)
        ensures
            old(self)@.len() == 0 ==> out.is_none() && final(self)@ == old(self)@,
            old(self)@.len() > 0 ==> out == Some(old(self)@[0]) && final(self)@ == old(self)@.drop_first(),
    {
        match self.head.take() {
            None => None,
            Some(node) => {
                let node = *node;
                self.head = node.next;
                proof {
                    assert((seq![node.val] + chain_view(node.next)).drop_first() =~= chain_view(node.next));
                }
                Some(node.val)
            },
        }
    }

    /// The most recently pushed value, left in place.
    pub fn head(&self) -> (out: Option<&T>)
        ensures
            self@.len() == 0 ==> out.is_none(),
            self@.len() > 0 ==> out == Some(&self@[0]),
    {
        match &self.head {
            None => None,
            Some(node) => Some(&node.val),
        }
    }
}

/// A read-only walk over a list, from the most recently pushed value on.
///
/// Its view is the sequence of values not yet handed out.
pub struct Iter<'a, T> {
    node: Option<&'a Node<T>>,
}

impl<'a, T> View for Iter<'a, T> {
    type V = Seq<T>;

    closed spec fn view(&self) -> Seq<T> {
        match self.node {
            None => Seq::empty(),
            Some(node) => seq![node.val] + chain_view(node.next),
        }
    }
}

impl<T> List<T> {
    /// A walk over the stored values that leaves the list as it is.
    pub fn iter(&self) -> (it: Iter<'_, T>)
        ensures
            it@ == self@,
    {
        match &self.head {
            None => Iter { node: None },
            Some(node) => Iter { node: Some(&**node) },
        }
    }
}

impl<'a, T> Iter<'a, T> {
    /// Hands out the next value of the walk, or `None` once all were handed out.
    pub fn next(&mut self) -> (out: Option<&'a T>)
        ensures
            old(self)@.len() == 0 ==> out.is_none() && final(self)@ == old(self)@,
            old(self)@.len() > 0 ==> out == Some(&old(self)@[0]) && final(self)@ == old(self)@.drop_first(),
    {
        match self.node {
            None => None,
            Some(node) => {
                self.node = match &node.next {
                    None => None,
                    Some(rest) => Some(&**rest),
                };
                proof {
                    assert((seq![node.val] + chain_view(node.next)).drop_first() =~= chain_view(node.next));
                }
                Some(&node.val)
            },
        }
    }
}

/// The values held by a cell and by the chain behind it.
pub closed spec fn node_view<T>(node: Node<T>) -> Seq<T> {
    seq![node.val] + chain_view(node.next)
}

/// A walk over a list that hands out each stored value for writing, from the
/// most recently pushed value on.
pub struct IterMut<'a, T> {
    node: Option<&'a mut Node<T>>,
}

impl<'a, T> IterMut<'a, T> {
    /// The values not yet handed out, as they stand now.
    pub closed spec fn remaining(&self) -> Seq<T> {
        match self.node {
            None => Seq::empty(),
            Some(node) => node_view(*node),
        }
    }

    /// The borrow of the cell that the walk stands on, if any is left.
    pub closed spec fn cursor(&self) -> Option<&'a mut Node<T>> {
        self.node
    }

    /// Hands out the next value of the walk for writing, or `None` once all
    /// were handed out.
    pub fn next(&mut self) -> (out: Option<&'a mut T>)
        ensures
            old(self).remaining().len() == 0 ==> out.is_none() && old(self).cursor().is_none(),
            old(self).remaining().len() > 0 ==> out.is_some() && old(self).cursor().is_some()
                && *out.unwrap() == old(self).remaining()[0]
                && final(self).remaining() == old(self).remaining().drop_first()
                && node_view(*final(old(self).cursor().unwrap())) == seq![*final(out.unwrap())] + (match final(self).cursor() {
                    None => Seq::empty(),
                    Some(rest) => node_view(*final(rest)),
                }),
    {
        match self.node.take() {
            None => None,
            Some(node) => {
                proof {
                    assert((seq![node.val] + chain_view(node.next)).drop_first() =~= chain_view(node.next));
                }
                self.node = match &mut node.next {
                    None => None,
                    Some(rest) => Some(&mut **rest),
                };
                Some(&mut node.val)
            },
        }
    }
}

impl<T> List<T> {
    /// A walk over the stored values that lets each be overwritten in place.
    pub fn iter_mut(&mut self) -> (it: IterMut<'_, T>)
        ensures
            it.remaining() == old(self)@,
            final(self)@ == (match it.cursor() {
                None => Seq::empty(),
                Some(node) => node_view(*final(node)),
            }),
    {
        match &mut self.head {
            None => IterMut { node: None },
            Some(node) => IterMut { node: Some(&mut **node) },
        }
    }
}

/// A walk that owns the list and hands its values out by value, the most
/// recently pushed first.
///
/// Its view is the sequence of values not yet handed out.
pub struct IntoIter<T> {
    list: List<T>,
}

impl<T> View for IntoIter<T> {
    type V = Seq<T>;

    closed spec fn view(&self) -> Seq<T> {
        self.list@
    }
}

impl<T> IntoIter<T> {
    /// Hands out the next value of the walk, or `None` once all were handed out.
    pub fn next(&mut self) -> (out: Option<T>)
        ensures
            old(self)@.len() == 0 ==> out.is_none() && final(self)@ == old(self)@,
            old(self)@.len() > 0 ==> out == Some(old(self)@[0]) && final(self)@ == old(self)@.drop_first(),
    {
        self.list.pop()
    }
}

impl<T> List<T> {
    /// Turns the list into a walk that hands its values out by value.
    pub fn into_iter(self) -> (it: IntoIter<T>)
        ensures
            it@ == self@,
    {
        IntoIter { list: self }
    }
}

impl<T> Default for List<T> {
    fn default() -> (list: Self)
        ensures
            list@ == Seq::<T>::empty(),
    {
        List::new()
    }
}

impl<T> vstd::std_specs::convert::FromSpecImpl<List<T>> for Vec<T> {
    open spec fn obeys_from_spec() -> bool {
        false
    }

    open spec fn from_spec(value: List<T>) -> Vec<T> {
        choose|out: Vec<T>| out@ == value@
    }
}

impl<T> From<List<T>> for Vec<T> {
    /// The stored values in a vector, the most recently pushed first.
    fn from(value: List<T>) -> (out: Vec<T>)
        ensures
            out@ == value@,
    {
        let mut value = value;
        let mut out: Vec<T> = Vec::new();
        let ghost all = value@;
        loop
            invariant
                out@ + value@ =~= all,
            ensures
                value@.len() == 0,
            decreases value@.len(),
        {
            match value.pop() {
                None => {
                    break;
                },
                Some(v) => {
                    out.push(v);
                },
            }
        }
        out
    }
}

impl<T> Drop for List<T> {
    /// Releases the cells one at a time, so that a long chain is not torn
    /// down by nested calls.
    fn drop(&mut self)
        ensures
            final(self)@ == Seq::<T>::empty(),
        opens_invariants none
        no_unwind
    {
        let mut node: Option<Box<Node<T>>> = None;
        core::mem::swap(&mut node, &mut self.head);
        loop
            decreases chain_view(node).len(),
        {
            match node {
                None => {
                    break;
                },
                Some(cell) => {
                    let cell = *cell;
                    node = cell.next;
                },
            }
        }
    }
}

/// The text of a list whose values read `parts`: the word `List`, then the
/// values between square brackets, separated by a comma and a space.
pub open spec fn list_text(parts: Seq<Seq<char>>) -> Seq<char> {
    "List["@ + joined(parts, ", "@) + "]"@
}

/// Puts the texts of a list's values, the most recently pushed first, into
/// the list's own text.
pub fn frame(parts: &Vec<String>) -> (out: String)
    ensures
        out@ == list_text(texts(parts@)),
{
    let mut out = String::from_str("List[");
    let inner = join(parts, ", ");
    out.append(inner.as_str());
    out.append("]");
    out
}

impl<T: core::fmt::Display> List<T> {
    /// The list as text: each value as its `Display` gives it, the most
    /// recently pushed first, framed as `list_text` says.
    pub fn to_string(&self) -> (out: String)
        ensures
            exists|parts: Seq<String>| shown(self@, parts) && out@ == list_text(texts(parts)),
    {
        let mut vals: Vec<&T> = Vec::new();
        let mut it = self.iter();
        loop
            invariant
                vals@.len() + it@.len() == self@.len(),
                it@ == self@.skip(vals@.len() as int),
                forall|i: int| 0 <= i < vals@.len() ==> *vals@[i] == self@[i],
            ensures
                vals@.len() == self@.len(),
                forall|i: int| 0 <= i < vals@.len() ==> *vals@[i] == self@[i],
            decreases it@.len(),
        {
            let ghost n = vals@.len() as int;
            match it.next() {
                None => {
                    break;
                },
                Some(v) => {
                    vals.push(v);
                    proof {
                        assert(self@.skip(n).drop_first() =~= self@.skip(n + 1));
                    }
                },
            }
        }
        let parts = render_all(&vals);
        proof {
            assert(Seq::new(vals@.len(), |i: int| *vals@[i]) =~= self@);
        }
        frame(&parts)
    }
}

} // verus!
