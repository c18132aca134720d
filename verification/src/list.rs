//! A doubly-linked list whose nodes live at addresses chosen by the caller.
//!
//! The list never picks a place for a node: every insertion names the address
//! at which the node is written, and the node is known by that address from
//! then on. Links between nodes are addresses too.

use vstd::prelude::*;

verus! {

/// Address of a node, or nothing.
pub type Link = Option<usize>;

/// One cell of a [`List`]: the element and the addresses of its neighbours.
pub struct Node<T> {
    /// Address of the next node of the list.
    pub next: Link,
    /// Address of the previous node of the list.
    pub prev: Link,
    /// Element of the node.
    pub data: T,
}

/// The list itself. Nodes are kept in list order, each beside its address.
pub struct List<T> {
    addrs: Vec<usize>,
    nodes: Vec<Node<T>>,
}

/// A walk over the elements of a [`List`], from the first to the last.
pub struct Iter<'a, T> {
    list: &'a List<T>,
    position: usize,
}

/// The link to position `i` of `addrs`, or nothing when `i` is outside.
pub open spec fn link_at(addrs: Seq<usize>, i: int) -> Link {
    if 0 <= i < addrs.len() {
        Some(addrs[i])
    } else {
        None
    }
}

impl<T> Node<T> {
    /// A node that is linked to nothing.
    pub fn new(data: T) -> (node: Self)
        ensures
            node.next.is_none(),
            node.prev.is_none(),
            node.data == data,
    {
        Self { next: None, prev: None, data }
    }
}

impl<T> List<T> {
    /// The addresses of the nodes, in list order.
    pub closed spec fn addrs(&self) -> Seq<usize> {
        self.addrs@
    }

    /// The elements, in list order.
    pub closed spec fn data(&self) -> Seq<T> {
        Seq::new(self.nodes@.len(), |i: int| self.nodes@[i].data)
    }

    /// The links of every node name its neighbours in list order.
    pub closed spec fn linked(&self) -> bool {
        &&& self.addrs@.len() == self.nodes@.len()
        &&& forall|i: int|
            0 <= i < self.nodes@.len() ==> {
                &&& (#[trigger] self.nodes@[i]).prev == link_at(self.addrs@, i - 1)
                &&& self.nodes@[i].next == link_at(self.addrs@, i + 1)
            }
    }

    /// Every node has an address of its own, one element, and links that
    /// name its neighbours.
    pub open spec fn wf(&self) -> bool {
        &&& self.addrs().len() == self.data().len()
        &&& self.addrs().no_duplicates()
        &&& self.linked()
    }

    /// An empty list.
    pub fn new() -> (list: Self)
        ensures
            list.wf(),
            list.addrs() == Seq::<usize>::empty(),
            list.data() == Seq::<T>::empty(),
    {
        let list = Self { addrs: Vec::new(), nodes: Vec::new() };
        proof {
            assert(list.data() =~= Seq::<T>::empty());
        }
        list
    }

    /// Number of nodes.
    pub fn len(&self) -> (n: usize)
        ensures
            n == self.addrs().len(),
    {
        self.addrs.len()
    }

    /// Address of the first node.
    pub fn first(&self) -> (head: Link)
        ensures
            head == link_at(self.addrs(), 0),
    {
        if self.addrs.len() == 0 {
            None
        } else {
            Some(self.addrs[0])
        }
    }

    /// Address of the last node.
    pub fn last(&self) -> (tail: Link)
        ensures
            tail == link_at(self.addrs(), self.addrs().len() - 1),
    {
        let n: usize = self.addrs.len();
        if n == 0 {
            None
        } else {
            Some(self.addrs[n - 1])
        }
    }

    /// Whether the list has no node.
    pub fn is_empty(&self) -> (empty: bool)
        ensures
            empty == (self.addrs().len() == 0),
    {
        self.addrs.len() == 0
    }

    /// Position of the node at `addr`, if the list has one there.
    pub fn position(&self, addr: usize) -> (found: Option<usize>)
        ensures
            match found {
                Some(i) => i < self.addrs().len() && self.addrs()[i as int] == addr,
                None => !self.addrs().contains(addr),
            },
    {
        let mut i: usize = 0;
        while i < self.addrs.len()
            invariant
                i <= self.addrs.len(),
                forall|k: int| 0 <= k < i ==> self.addrs@[k] != addr,
            decreases self.addrs.len() - i,
        {
            if self.addrs[i] == addr {
                return Some(i);
            }
            i += 1;
        }
        None
    }

    /// Address of the node at position `i`.
    pub fn addr_at(&self, i: usize) -> (addr: usize)
        requires
            i < self.addrs().len(),
        ensures
            addr == self.addrs()[i as int],
    {
        self.addrs[i]
    }

    /// The node at position `i`.
    pub fn node_at(&self, i: usize) -> (node: &Node<T>)
        requires
            self.wf(),
            i < self.addrs().len(),
        ensures
            node.data == self.data()[i as int],
            node.prev == link_at(self.addrs(), i - 1),
            node.next == link_at(self.addrs(), i + 1),
    {
        &self.nodes[i]
    }

    /// The node written at `addr`.
    pub fn node(&self, addr: usize) -> (node: Option<&Node<T>>)
        requires
            self.wf(),
        ensures
            match node {
                Some(n) => {
                    let i = self.addrs().index_of(addr);
                    &&& self.addrs().contains(addr)
                    &&& n.data == self.data()[i]
                    &&& n.prev == link_at(self.addrs(), i - 1)
                    &&& n.next == link_at(self.addrs(), i + 1)
                },
                None => !self.addrs().contains(addr),
            },
    {
        match self.position(addr) {
            Some(i) => {
                proof {
                    let k = self.addrs().index_of(addr);
                    assert(self.addrs()[k] == addr);
                }
                Some(&self.nodes[i])
            },
            None => None,
        }
    }

    /// The element at position `i`, for changing it in place.
    pub fn data_mut(&mut self, i: usize) -> (data: &mut T)
        requires
            old(self).wf(),
            i < old(self).addrs().len(),
        ensures
            *data == old(self).data()[i as int],
            final(self).addrs() == old(self).addrs(),
            final(self).data() == old(self).data().update(i as int, *final(data)),
            final(self).wf(),
    {
        &mut self.nodes[i].data
    }

    /// Writes a node holding `data` at `addr` and links it behind the last node.
    ///
    /// The caller supplies the storage: `addr` must not hold a node of this
    /// list already.
    pub fn append(&mut self, data: T, addr: usize) -> (node: usize)
        requires
            old(self).wf(),
            !old(self).addrs().contains(addr),
        ensures
            node == addr,
            final(self).wf(),
            final(self).addrs() == old(self).addrs().push(addr),
            final(self).data() == old(self).data().push(data),
    {
        let n: usize = self.addrs.len();
        let prev: Link = if n == 0 {
            None
        } else {
            Some(self.addrs[n - 1])
        };
        if n > 0 {
            self.nodes[n - 1].next = Some(addr);
        }
        self.nodes.push(Node { next: None, prev, data });
        self.addrs.push(addr);
        proof {
            assert(final(self).data() =~= old(self).data().push(data));
        }
        addr
    }

    /// Writes a node holding `data` at `addr` and links it right behind `node`.
    ///
    /// `node` must be a node of this list, and `addr` must not hold one yet.
    pub fn insert_after(&mut self, node: usize, data: T, addr: usize) -> (new: usize)
        requires
            old(self).wf(),
            old(self).addrs().contains(node),
            !old(self).addrs().contains(addr),
        ensures
            new == addr,
            final(self).wf(),
            final(self).addrs() == old(self).addrs().insert(
                old(self).addrs().index_of(node) + 1,
                addr,
            ),
            final(self).data() == old(self).data().insert(
                old(self).addrs().index_of(node) + 1,
                data,
            ),
    {
        let found = self.position(node);
        let i: usize = match found {
            Some(i) => i,
            None => 0,
        };
        proof {
            let k = old(self).addrs().index_of(node);
            assert(old(self).addrs()[k] == node);
            assert(k == i);
        }
        let n: usize = self.addrs.len();
        let next: Link = if i + 1 < n {
            Some(self.addrs[i + 1])
        } else {
            None
        };
        self.nodes[i].next = Some(addr);
        if i + 1 < n {
            self.nodes[i + 1].prev = Some(addr);
        }
        self.nodes.insert(i + 1, Node { next, prev: Some(node), data });
        self.addrs.insert(i + 1, addr);
        proof {
            assert(final(self).data() =~= old(self).data().insert(i + 1, data));
            assert(final(self).addrs().no_duplicates()) by {
                let a = final(self).addrs();
                let o = old(self).addrs();
                assert forall|x: int, y: int|
                    0 <= x < a.len() && 0 <= y < a.len() && x != y implies a[x] != a[y] by {
                    let ox = if x <= i { x } else { x - 1 };
                    let oy = if y <= i { y } else { y - 1 };
                    if x != i + 1 && y != i + 1 {
                        assert(a[x] == o[ox] && a[y] == o[oy]);
                    } else if x == i + 1 {
                        assert(a[y] == o[oy]);
                    } else {
                        assert(a[x] == o[ox]);
                    }
                }
            }
        }
        addr
    }

    /// Unlinks the node at `node`, which must be a node of this list. The
    /// storage behind it is the caller's again.
    pub fn remove(&mut self, node: usize)
        requires
            old(self).wf(),
            old(self).addrs().contains(node),
        ensures
            final(self).wf(),
            final(self).addrs() == old(self).addrs().remove(old(self).addrs().index_of(node)),
            final(self).data() == old(self).data().remove(old(self).addrs().index_of(node)),
    {
        let found = self.position(node);
        let i: usize = match found {
            Some(i) => i,
            None => 0,
        };
        proof {
            let k = old(self).addrs().index_of(node);
            assert(old(self).addrs()[k] == node);
            assert(k == i);
        }
        let _ = self.remove_at(i);
    }

    /// Unlinks the node at position `i` and hands its element back.
    pub fn remove_at(&mut self, i: usize) -> (data: T)
        requires
            old(self).wf(),
            i < old(self).addrs().len(),
        ensures
            final(self).wf(),
            final(self).addrs() == old(self).addrs().remove(i as int),
            final(self).data() == old(self).data().remove(i as int),
            data == old(self).data()[i as int],
    {
        let n: usize = self.addrs.len();
        let prev: Link = if i > 0 {
            Some(self.addrs[i - 1])
        } else {
            None
        };
        let next: Link = if i + 1 < n {
            Some(self.addrs[i + 1])
        } else {
            None
        };
        if i > 0 {
            self.nodes[i - 1].next = next;
        }
        if i + 1 < n {
            self.nodes[i + 1].prev = prev;
        }
        let ghost mid = self.nodes@;
        let gone = self.nodes.remove(i);
        let _ = self.addrs.remove(i);
        proof {
            let a = final(self).addrs();
            let o = old(self).addrs();
            assert(a =~= o.remove(i as int));
            assert(final(self).nodes@ =~= mid.remove(i as int));
            assert forall|k: int| 0 <= k < final(self).nodes@.len() implies {
                &&& (#[trigger] final(self).nodes@[k]).prev == link_at(a, k - 1)
                &&& final(self).nodes@[k].next == link_at(a, k + 1)
            } by {
                if k < i {
                    assert(final(self).nodes@[k] == mid[k]);
                    assert(mid[k].prev == old(self).nodes@[k].prev);
                    if k > 0 {
                        assert(a[k - 1] == o[k - 1]);
                    }
                    if k + 1 < i {
                        assert(a[k + 1] == o[k + 1]);
                        assert(mid[k].next == old(self).nodes@[k].next);
                    }
                } else {
                    assert(final(self).nodes@[k] == mid[k + 1]);
                    assert(mid[k + 1].next == old(self).nodes@[k + 1].next);
                    if k + 1 < a.len() {
                        assert(a[k + 1] == o[k + 2]);
                    }
                    if k > i {
                        assert(a[k - 1] == o[k]);
                        assert(mid[k + 1].prev == old(self).nodes@[k + 1].prev);
                    }
                }
            }
            assert(final(self).data() =~= old(self).data().remove(i as int));
            assert(final(self).addrs().no_duplicates()) by {
                let a = final(self).addrs();
                let o = old(self).addrs();
                assert forall|x: int, y: int|
                    0 <= x < a.len() && 0 <= y < a.len() && x != y implies a[x] != a[y] by {
                    let ox = if x < i { x } else { x + 1 };
                    let oy = if y < i { y } else { y + 1 };
                    assert(a[x] == o[ox] && a[y] == o[oy]);
                }
            }
        }
        gone.data
    }

    /// A walk over the elements, first to last.
    pub fn iter(&self) -> (it: Iter<'_, T>)
        requires
            self.wf(),
        ensures
            it.wf(),
            it.remaining() == self.data(),
    {
        Iter { list: self, position: 0 }
    }

} // impl

impl<'a, T> Iter<'a, T> {
    /// The walk has not run past the end of a well-formed list.
    pub closed spec fn wf(&self) -> bool {
        self.list.wf() && self.position <= self.list.nodes@.len()
    }

    /// The elements that the walk has yet to give, in order.
    pub closed spec fn remaining(&self) -> Seq<T> {
        self.list.data().skip(self.position as int)
    }

    /// Gives the next element, or nothing once the last one was given.
    pub fn next(&mut self) -> (item: Option<&'a T>)
        requires
            old(self).wf(),
        ensures
            final(self).wf(),
            match item {
                Some(data) => old(self).remaining().len() > 0 && *data == old(
                    self,
                ).remaining()[0] && final(self).remaining() == old(self).remaining().skip(1),
                None => old(self).remaining().len() == 0 && final(self).remaining() == old(
                    self,
                ).remaining(),
            },
    {
        if self.position < self.list.nodes.len() {
            let node = &self.list.nodes[self.position];
            self.position = self.position + 1;
            proof {
                assert(final(self).remaining() =~= old(self).remaining().skip(1));
            }
            Some(&node.data)
        } else {
            None
        }
    }

    /// Number of elements still to come, as a lower and an upper bound.
    pub fn size_hint(&self) -> (hint: (usize, Option<usize>))
        requires
            self.wf(),
        ensures
            hint.0 == self.remaining().len(),
            hint.1 == Some(hint.0),
    {
        let left: usize = self.list.nodes.len() - self.position;
        (left, Some(left))
    }
}

} // verus!
