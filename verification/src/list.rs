//! A doubly linked list with stable node handles.
//!
//! The nodes live in slots of one vector that the list owns. A handle names a
//! slot, so it stays valid while other nodes come and go, and removing a node by
//! its handle takes constant time. Slots of removed nodes are used again.
//!
//! To contracts a list is two sequences of equal length: its values from front
//! to back (`view`), and the handle of each of them (`handles`).

use vstd::prelude::*;

verus! {

/// The slot number that no node has.
pub const NULL_SLOT: usize = usize::MAX;

/// A handle to a node of a list. Handles are compared by identity: two handles
/// are equal when they name the same slot.
#[derive(Clone, Copy, Debug, PartialEq, Eq, Hash, Structural)]
pub struct NodeRef {
    slot: usize,
}

impl NodeRef {
    /// Whether this is the handle that names no node.
    pub open spec fn spec_is_null(&self) -> bool {
        *self == Self::spec_null()
    }

    /// The handle that names no node.
    pub closed spec fn spec_null() -> NodeRef {
        NodeRef { slot: NULL_SLOT }
    }

    /// The handle that names no node.
    #[verifier::when_used_as_spec(spec_null)]
    pub fn null() -> (r: NodeRef)
        ensures
            r == Self::spec_null(),
    {
        NodeRef { slot: NULL_SLOT }
    }

    /// Whether this is the handle that names no node.
    #[verifier::when_used_as_spec(spec_is_null)]
    pub fn is_null(&self) -> (r: bool)
        ensures
            r == self.spec_is_null(),
    {
        self.slot == NULL_SLOT
    }
}

/// A node: a value and the handles of its two neighbours.
#[derive(Debug, PartialEq, Eq)]
pub struct Node<T> {
    pub data: T,
    pub prev: NodeRef,
    pub next: NodeRef,
}

impl<T> Node<T> {
    /// A node that is linked to nothing.
    pub fn new(data: T) -> (r: Node<T>)
        ensures
            r.data == data,
            r.prev == NodeRef::spec_null(),
            r.next == NodeRef::spec_null(),
    {
        Node { data, prev: NodeRef::null(), next: NodeRef::null() }
    }
}

/// A doubly linked list.
pub struct List<T> {
    slots: Vec<Option<Node<T>>>,
    free: Vec<usize>,
    head: usize,
    tail: usize,
    length: usize,
    order: Ghost<Seq<usize>>,
}

impl<T> View for List<T> {
    type V = Seq<T>;

    /// The values, front to back.
    closed spec fn view(&self) -> Seq<T> {
        Seq::new(self.order@.len(), |k: int| self.slots@[self.order@[k] as int]->0.data)
    }
}

impl<T> List<T> {
    /// The handles of the nodes, front to back: `handles()[k]` is the handle of
    /// the node that holds `view()[k]`.
    pub closed spec fn handles(&self) -> Seq<NodeRef> {
        Seq::new(self.order@.len(), |k: int| NodeRef { slot: self.order@[k] })
    }

    spec fn slot_before(&self, k: int) -> usize {
        if k == 0 {
            NULL_SLOT
        } else {
            self.order@[k - 1]
        }
    }

    spec fn slot_after(&self, k: int) -> usize {
        if k == self.order@.len() - 1 {
            NULL_SLOT
        } else {
            self.order@[k + 1]
        }
    }

    spec fn linked_at(&self, k: int) -> bool {
        let s = self.order@[k];
        &&& s < self.slots@.len()
        &&& self.slots@[s as int] matches Some(node)
        &&& node.prev.slot == self.slot_before(k)
        &&& node.next.slot == self.slot_after(k)
    }

    spec fn free_at(&self, j: int) -> bool {
        let f = self.free@[j];
        &&& f < self.slots@.len()
        &&& self.slots@[f as int] is None
    }

    /// The invariant of the list: the links of the nodes agree with the order of
    /// the handles, in both directions, and no slot is both free and in use.
    pub closed spec fn wf(&self) -> bool {
        &&& self.length == self.order@.len()
        &&& self.order@.len() + self.free@.len() <= self.slots@.len()
        &&& self.order@.no_duplicates()
        &&& self.free@.no_duplicates()
        &&& forall|k: int| 0 <= k < self.order@.len() ==> self.linked_at(k)
        &&& forall|j: int| 0 <= j < self.free@.len() ==> self.free_at(j)
        &&& self.head == (if self.order@.len() == 0 {
            NULL_SLOT
        } else {
            self.order@[0]
        })
        &&& self.tail == (if self.order@.len() == 0 {
            NULL_SLOT
        } else {
            self.order@[self.order@.len() - 1]
        })
    }

    /// What the invariant gives: every value has a handle, no handle is null,
    /// and no two nodes share a handle.
    pub proof fn lemma_handles(&self)
        requires
            self.wf(),
        ensures
            self.handles().len() == self@.len(),
            self.handles().no_duplicates(),
            forall|k: int| 0 <= k < self.handles().len() ==> !(#[trigger] self.handles()[k]).is_null(),
            forall|k: int|
                0 <= k < self.handles().len() ==> self.handles().index_of(
                    #[trigger] self.handles()[k],
                ) == k,
    {
        assert forall|k: int| 0 <= k < self.handles().len() implies !(
        #[trigger] self.handles()[k]).is_null() by {
            assert(self.linked_at(k));
            assert(self.slots.len() == self.slots@.len());
        }
        assert forall|i: int, j: int|
            0 <= i < self.handles().len() && 0 <= j < self.handles().len() && i != j implies
            self.handles()[i] != self.handles()[j] by {
            assert(self.order@[i] != self.order@[j]);
        }
        assert forall|k: int| 0 <= k < self.handles().len() implies self.handles().index_of(
            #[trigger] self.handles()[k],
        ) == k by {
            let h = self.handles()[k];
            let i = self.handles().index_of(h);
            assert(self.handles().contains(h));
        }
    }

    /// An empty list.
    pub fn new() -> (r: Self)
        ensures
            r.wf(),
            r@ == Seq::<T>::empty(),
            r.handles() == Seq::<NodeRef>::empty(),
    {
        let r = List {
            slots: Vec::new(),
            free: Vec::new(),
            head: NULL_SLOT,
            tail: NULL_SLOT,
            length: 0,
            order: Ghost(Seq::empty()),
        };
        assert(r@ =~= Seq::<T>::empty());
        assert(r.handles() =~= Seq::<NodeRef>::empty());
        r
    }

    /// The number of values.
    pub fn len(&self) -> (r: usize)
        requires
            self.wf(),
        ensures
            r == self@.len(),
    {
        self.length
    }

    pub fn is_empty(&self) -> (r: bool)
        requires
            self.wf(),
        ensures
            r == (self@.len() == 0),
    {
        self.length == 0
    }

    /// Puts a node into a slot that is not in use, and returns the slot.
    fn place(&mut self, node: Node<T>) -> (slot: usize)
        requires
            old(self).free@.no_duplicates(),
            forall|j: int| 0 <= j < old(self).free@.len() ==> old(self).free_at(j),
            old(self).order@.len() + old(self).free@.len() <= old(self).slots@.len(),
        ensures
            slot < final(self).slots@.len(),
            slot != NULL_SLOT,
            final(self).slots@.len() >= old(self).slots@.len(),
            slot < old(self).slots@.len() ==> old(self).slots@[slot as int] is None,
            final(self).slots@[slot as int] == Some(node),
            forall|i: int|
                0 <= i < old(self).slots@.len() && i != slot ==> final(self).slots@[i] == old(self).slots@[i],
            final(self).free@.no_duplicates(),
            forall|j: int| 0 <= j < final(self).free@.len() ==> final(self).free_at(j),
            final(self).order@.len() + final(self).free@.len() + 1 <= final(self).slots@.len(),
            final(self).order@.len() < usize::MAX,
            final(self).order == old(self).order,
            final(self).head == old(self).head,
            final(self).tail == old(self).tail,
            final(self).length == old(self).length,
    {
        match self.free.pop() {
            Some(f) => {
                assert(old(self).free_at(old(self).free@.len() - 1));
                assert forall|j: int| 0 <= j < self.free@.len() implies self.free@[j] != f by {
                    assert(old(self).free@[j] != old(self).free@[old(self).free@.len() - 1]);
                }
                self.slots[f] = Some(node);
                assert(self.slots.len() == self.slots@.len());
                assert forall|j: int| 0 <= j < self.free@.len() implies self.free_at(j) by {
                    assert(old(self).free_at(j));
                    assert(self.free@[j] == old(self).free@[j]);
                }
                f
            },
            None => {
                self.slots.push(Some(node));
                assert(self.slots.len() == self.slots@.len());
                self.slots.len() - 1
            },
        }
    }

    /// Sets the `next` link of the node in `slot`.
    fn link_next(&mut self, slot: usize, next: usize)
        requires
            slot < old(self).slots@.len(),
            old(self).slots@[slot as int] is Some,
        ensures
            final(self).slots@ == old(self).slots@.update(
                slot as int,
                Some(
                    Node {
                        data: old(self).slots@[slot as int]->0.data,
                        prev: old(self).slots@[slot as int]->0.prev,
                        next: NodeRef { slot: next },
                    },
                ),
            ),
            final(self).free == old(self).free,
            final(self).order == old(self).order,
            final(self).head == old(self).head,
            final(self).tail == old(self).tail,
            final(self).length == old(self).length,
    {
        match &mut self.slots[slot] {
            Some(node) => {
                node.next = NodeRef { slot: next };
            },
            None => {},
        }
    }

    /// Sets the `prev` link of the node in `slot`.
    fn link_prev(&mut self, slot: usize, prev: usize)
        requires
            slot < old(self).slots@.len(),
            old(self).slots@[slot as int] is Some,
        ensures
            final(self).slots@ == old(self).slots@.update(
                slot as int,
                Some(
                    Node {
                        data: old(self).slots@[slot as int]->0.data,
                        prev: NodeRef { slot: prev },
                        next: old(self).slots@[slot as int]->0.next,
                    },
                ),
            ),
            final(self).free == old(self).free,
            final(self).order == old(self).order,
            final(self).head == old(self).head,
            final(self).tail == old(self).tail,
            final(self).length == old(self).length,
    {
        match &mut self.slots[slot] {
            Some(node) => {
                node.prev = NodeRef { slot: prev };
            },
            None => {},
        }
    }

    /// Puts a value before all others, and returns the handle of its node.
    pub fn push_front(&mut self, data: T) -> (r: NodeRef)
        requires
            old(self).wf(),
        ensures
            final(self).wf(),
            final(self)@ == seq![data] + old(self)@,
            final(self).handles() == seq![r] + old(self).handles(),
            !old(self).handles().contains(r),
            !r.is_null(),
    {
        let ghost n = self.order@.len() as int;
        let head = self.head;
        assert(self.slots.len() == self.slots@.len());
        let slot = self.place(Node { data, prev: NodeRef::null(), next: NodeRef { slot: head } });
        let ghost mid = *self;
        assert forall|k: int| 0 <= k < n implies old(self).order@[k] != slot by {
            assert(old(self).linked_at(k));
        }
        if head == NULL_SLOT {
            assert(n == 0) by {
                if n > 0 {
                    assert(old(self).linked_at(0));
                }
            }
            self.tail = slot;
        } else {
            assert(old(self).linked_at(0));
            self.link_prev(head, slot);
        }
        self.head = slot;
        self.length += 1;
        self.order = Ghost(seq![slot] + self.order@);
        proof {
            assert forall|j: int| 0 <= j < self.free@.len() implies self.free_at(j) by {
                assert(mid.free_at(j));
            }
            assert(self.order@.no_duplicates());
            assert forall|k: int| 0 <= k < self.order@.len() implies self.linked_at(k) by {
                if k > 0 {
                    assert(old(self).linked_at(k - 1));
                    assert(self.order@[k] == old(self).order@[k - 1]);
                    if k > 1 {
                        assert(old(self).order@[k - 1] != old(self).order@[0]);
                    }
                } else {
                    assert(self.order@[k] == slot);
                }
            }
            assert(self@ =~= seq![data] + old(self)@) by {
                assert forall|k: int| 0 < k <= n implies self@[k] == old(self)@[k - 1] by {
                    assert(old(self).linked_at(k - 1));
                }
            }
            assert(self.handles() =~= seq![NodeRef { slot }] + old(self).handles());

            if old(self).handles().contains(NodeRef { slot }) {
                let k = old(self).handles().index_of(NodeRef { slot });
                assert(old(self).order@[k] == slot);
            }
        }
        NodeRef { slot }
    }

    /// Appends a value, and returns the handle of its node. The handle stays
    /// valid until that node is removed.
    pub fn push_back(&mut self, data: T) -> (r: NodeRef)
        requires
            old(self).wf(),
        ensures
            final(self).wf(),
            final(self)@ == old(self)@.push(data),
            final(self).handles() == old(self).handles().push(r),
            !old(self).handles().contains(r),
            !r.is_null(),
    {
        let ghost n = self.order@.len() as int;
        let tail = self.tail;
        assert(self.slots.len() == self.slots@.len());
        let slot = self.place(Node { data, prev: NodeRef { slot: tail }, next: NodeRef::null() });
        let ghost mid = *self;
        assert forall|k: int| 0 <= k < n implies old(self).order@[k] != slot by {
            assert(old(self).linked_at(k));
        }
        if tail == NULL_SLOT {
            assert(n == 0) by {
                if n > 0 {
                    assert(old(self).linked_at(n - 1));
                }
            }
            self.head = slot;
        } else {
            assert(old(self).linked_at(n - 1));
            self.link_next(tail, slot);
        }
        self.tail = slot;
        self.length += 1;
        self.order = Ghost(self.order@.push(slot));
        proof {
            assert forall|j: int| 0 <= j < self.free@.len() implies self.free_at(j) by {
                assert(mid.free_at(j));
            }
            assert(self.order@.no_duplicates());
            assert forall|k: int| 0 <= k < self.order@.len() implies self.linked_at(k) by {
                if k < n {
                    assert(old(self).linked_at(k));
                    assert(self.order@[k] == old(self).order@[k]);
                    if k < n - 1 {
                        assert(old(self).order@[k] != old(self).order@[n - 1]);
                    }
                } else {
                    assert(self.order@[k] == slot);
                }
            }
            assert(self@ =~= old(self)@.push(data)) by {
                assert forall|k: int| 0 <= k < n implies self@[k] == old(self)@[k] by {
                    assert(old(self).linked_at(k));
                }
            }
            assert(self.handles() =~= old(self).handles().push(NodeRef { slot }));
            if old(self).handles().contains(NodeRef { slot }) {
                let k = old(self).handles().index_of(NodeRef { slot });
                assert(old(self).order@[k] == slot);
            }
        }
        NodeRef { slot }
    }

    /// Takes the node in `slot`, which is number `k` of the list, out of the
    /// list, and frees its slot.
    fn unlink(&mut self, slot: usize, Ghost(k): Ghost<int>) -> (node: Node<T>)
        requires
            old(self).wf(),
            0 <= k < old(self).order@.len(),
            old(self).order@[k] == slot,
        ensures
            final(self).wf(),
            final(self)@ == old(self)@.remove(k),
            final(self).handles() == old(self).handles().remove(k),
            node.data == old(self)@[k],
    {
        let ghost n = self.order@.len() as int;
        assert(self.slots.len() == self.slots@.len());
        assert(self.linked_at(k));
        let node = self.slots[slot].take().unwrap();
        let prev = node.prev.slot;
        let next = node.next.slot;
        if prev == NULL_SLOT {
            assert(k == 0) by {
                if k > 0 {
                    assert(old(self).linked_at(k - 1));
                }
            }
            self.head = next;
        } else {
            assert(old(self).linked_at(k - 1));
            assert(old(self).order@[k - 1] != old(self).order@[k]);
            self.link_next(prev, next);
        }
        if next == NULL_SLOT {
            assert(k == n - 1) by {
                if k < n - 1 {
                    assert(old(self).linked_at(k + 1));
                }
            }
            self.tail = prev;
        } else {
            assert(old(self).linked_at(k + 1));
            assert(old(self).order@[k + 1] != old(self).order@[k]);
            proof {
                if k > 0 {
                    assert(old(self).order@[k + 1] != old(self).order@[k - 1]);
                }
            }
            self.link_prev(next, prev);
        }
        self.length -= 1;
        self.free.push(slot);
        self.order = Ghost(self.order@.remove(k));
        proof {
            assert forall|j: int| 0 <= j < self.order@.len() implies self.linked_at(j) by {
                let i = if j < k {
                    j
                } else {
                    j + 1
                };
                assert(self.order@[j] == old(self).order@[i]);
                assert(old(self).linked_at(i));
                assert(old(self).order@[i] != old(self).order@[k]);
                if k > 0 && i != k - 1 {
                    assert(old(self).order@[i] != old(self).order@[k - 1]);
                }
                if k < n - 1 && i != k + 1 {
                    assert(old(self).order@[i] != old(self).order@[k + 1]);
                }
            }
            assert forall|j: int| 0 <= j < self.free@.len() implies self.free_at(j) by {
                if j < old(self).free@.len() {
                    assert(old(self).free_at(j));
                }
            }
            assert(self.free@.no_duplicates()) by {
                assert forall|j: int| 0 <= j < old(self).free@.len() implies old(self).free@[j]
                    != slot by {
                    assert(old(self).free_at(j));
                }
            }
            assert(self.order@.no_duplicates());
            assert(self@ =~= old(self)@.remove(k)) by {
                assert forall|j: int| 0 <= j < self.order@.len() implies self@[j] == old(self)@.remove(k)[j] by {
                    let i = if j < k {
                        j
                    } else {
                        j + 1
                    };
                    assert(self.order@[j] == old(self).order@[i]);
                    assert(old(self).linked_at(i));
                    assert(old(self).order@[i] != old(self).order@[k]);
                }
            }
            assert(self.handles() =~= old(self).handles().remove(k));
        }
        node
    }

    /// Removes the node that a handle names, and returns its value. For the null
    /// handle nothing is removed. The handle must be null or name a node of
    /// this list.
    pub fn remove(&mut self, node: NodeRef) -> (r: Option<T>)
        requires
            old(self).wf(),
            node.is_null() || old(self).handles().contains(node),
        ensures
            final(self).wf(),
            node.is_null() ==> r is None && final(self)@ == old(self)@ && final(self).handles()
                == old(self).handles(),
            !node.is_null() ==> {
                let k = old(self).handles().index_of(node);
                &&& r == Some(old(self)@[k])
                &&& final(self)@ == old(self)@.remove(k)
                &&& final(self).handles() == old(self).handles().remove(k)
            },
    {
        if node.is_null() {
            return None;
        }
        let ghost k = self.handles().index_of(node);
        let unlinked = self.unlink(node.slot, Ghost(k));
        Some(unlinked.data)
    }

    /// Unlinks the first node and hands it over, its links cleared.
    pub fn pop_front(&mut self) -> (r: Option<Node<T>>)
        requires
            old(self).wf(),
        ensures
            final(self).wf(),
            old(self)@.len() == 0 ==> {
                &&& r is None
                &&& final(self)@ == old(self)@
                &&& final(self).handles() == old(self).handles()
            },
            old(self)@.len() > 0 ==> {
                &&& r == Some(
                    Node { data: old(self)@[0], prev: NodeRef::null(), next: NodeRef::null() },
                )
                &&& final(self)@ == old(self)@.drop_first()
                &&& final(self).handles() == old(self).handles().drop_first()
            },
    {
        if self.head == NULL_SLOT {
            assert(self.order@.len() == 0) by {
                if self.order@.len() > 0 {
                    assert(self.linked_at(0));
                    assert(self.slots.len() == self.slots@.len());
                }
            }
            return None;
        }
        let slot = self.head;
        let unlinked = self.unlink(slot, Ghost(0));
        assert(old(self)@.remove(0) =~= old(self)@.drop_first());
        assert(old(self).handles().remove(0) =~= old(self).handles().drop_first());
        Some(Node { data: unlinked.data, prev: NodeRef::null(), next: NodeRef::null() })
    }

    /// Unlinks the last node and hands it over, its links cleared.
    pub fn pop_back(&mut self) -> (r: Option<Node<T>>)
        requires
            old(self).wf(),
        ensures
            final(self).wf(),
            old(self)@.len() == 0 ==> {
                &&& r is None
                &&& final(self)@ == old(self)@
                &&& final(self).handles() == old(self).handles()
            },
            old(self)@.len() > 0 ==> {
                &&& r == Some(
                    Node { data: old(self)@.last(), prev: NodeRef::null(), next: NodeRef::null() },
                )
                &&& final(self)@ == old(self)@.drop_last()
                &&& final(self).handles() == old(self).handles().drop_last()
            },
    {
        if self.tail == NULL_SLOT {
            assert(self.order@.len() == 0) by {
                if self.order@.len() > 0 {
                    assert(self.linked_at(self.order@.len() - 1));
                    assert(self.slots.len() == self.slots@.len());
                }
            }
            return None;
        }
        let slot = self.tail;
        let ghost k = self.order@.len() - 1;
        let unlinked = self.unlink(slot, Ghost(k));
        assert(old(self)@.remove(k) =~= old(self)@.drop_last());
        assert(old(self).handles().remove(k) =~= old(self).handles().drop_last());
        Some(Node { data: unlinked.data, prev: NodeRef::null(), next: NodeRef::null() })
    }

    /// The handle of the first node, or the null handle if the list is empty.
    pub fn head(&self) -> (r: NodeRef)
        requires
            self.wf(),
        ensures
            r == (if self@.len() == 0 {
                NodeRef::null()
            } else {
                self.handles()[0]
            }),
    {
        NodeRef { slot: self.head }
    }

    /// The handle of the last node, or the null handle if the list is empty.
    pub fn tail(&self) -> (r: NodeRef)
        requires
            self.wf(),
        ensures
            r == (if self@.len() == 0 {
                NodeRef::null()
            } else {
                self.handles().last()
            }),
    {
        NodeRef { slot: self.tail }
    }

    /// The handle of the node after the one that `node` names, or the null
    /// handle if that one is the last.
    pub fn next(&self, node: NodeRef) -> (r: NodeRef)
        requires
            self.wf(),
            self.handles().contains(node),
        ensures
            r == (if self.handles().index_of(node) + 1 < self@.len() {
                self.handles()[self.handles().index_of(node) + 1]
            } else {
                NodeRef::null()
            }),
    {
        let ghost k = self.handles().index_of(node);
        assert(self.linked_at(k));
        match &self.slots[node.slot] {
            Some(n) => n.next,
            None => vstd::pervasive::unreached(),
        }
    }

    /// The handle of the node before the one that `node` names, or the null
    /// handle if that one is the first.
    pub fn prev(&self, node: NodeRef) -> (r: NodeRef)
        requires
            self.wf(),
            self.handles().contains(node),
        ensures
            r == (if self.handles().index_of(node) > 0 {
                self.handles()[self.handles().index_of(node) - 1]
            } else {
                NodeRef::null()
            }),
    {
        let ghost k = self.handles().index_of(node);
        assert(self.linked_at(k));
        match &self.slots[node.slot] {
            Some(n) => n.prev,
            None => vstd::pervasive::unreached(),
        }
    }

    /// The value in the node that `node` names.
    pub fn get(&self, node: NodeRef) -> (r: &T)
        requires
            self.wf(),
            self.handles().contains(node),
        ensures
            *r == self@[self.handles().index_of(node)],
    {
        let ghost k = self.handles().index_of(node);
        assert(self.linked_at(k));
        match &self.slots[node.slot] {
            Some(n) => &n.data,
            None => vstd::pervasive::unreached(),
        }
    }

    /// The value in a slot that is in use, to be changed in place.
    fn slot_mut(&mut self, slot: usize) -> (r: &mut T)
        requires
            slot < old(self).slots@.len(),
            old(self).slots@[slot as int] is Some,
        ensures
            *r == old(self).slots@[slot as int]->0.data,
            final(self).slots@ == old(self).slots@.update(
                slot as int,
                Some(
                    Node {
                        data: *final(r),
                        prev: old(self).slots@[slot as int]->0.prev,
                        next: old(self).slots@[slot as int]->0.next,
                    },
                ),
            ),
            final(self).free == old(self).free,
            final(self).order == old(self).order,
            final(self).head == old(self).head,
            final(self).tail == old(self).tail,
            final(self).length == old(self).length,
    {
        match &mut self.slots[slot] {
            Some(n) => &mut n.data,
            None => vstd::pervasive::unreached(),
        }
    }

    /// A list in which one value has been replaced keeps its invariant, its
    /// handles and its other values.
    proof fn lemma_value_changed(a: Self, b: Self, k: int, v: T)
        requires
            a.wf(),
            0 <= k < a.order@.len(),
            b.slots@ == a.slots@.update(
                a.order@[k] as int,
                Some(
                    Node {
                        data: v,
                        prev: a.slots@[a.order@[k] as int]->0.prev,
                        next: a.slots@[a.order@[k] as int]->0.next,
                    },
                ),
            ),
            b.free == a.free,
            b.order == a.order,
            b.head == a.head,
            b.tail == a.tail,
            b.length == a.length,
        ensures
            b.wf(),
            b@ == a@.update(k, v),
            b.handles() == a.handles(),
    {
        assert(a.linked_at(k));
        assert forall|j: int| 0 <= j < b.order@.len() implies b.linked_at(j) by {
            assert(a.linked_at(j));
            if j != k {
                assert(a.order@[j] != a.order@[k]);
            }
        }
        assert forall|j: int| 0 <= j < b.free@.len() implies b.free_at(j) by {
            assert(a.free_at(j));
        }
        assert(b@ =~= a@.update(k, v)) by {
            assert forall|j: int| 0 <= j < b.order@.len() implies b@[j] == a@.update(k, v)[j] by {
                assert(a.linked_at(j));
                if j != k {
                    assert(a.order@[j] != a.order@[k]);
                }
            }
        }
        assert(b.handles() =~= a.handles());
    }

    /// The value in the node that `node` names, to be changed in place. The
    /// list keeps its nodes and their order.
    pub fn get_mut(&mut self, node: NodeRef) -> (r: &mut T)
        requires
            old(self).wf(),
            old(self).handles().contains(node),
        ensures
            *r == old(self)@[old(self).handles().index_of(node)],
            final(self).wf(),
            final(self)@ == old(self)@.update(old(self).handles().index_of(node), *final(r)),
            final(self).handles() == old(self).handles(),
    {
        let ghost k = self.handles().index_of(node);
        assert(self.linked_at(k));
        let ghost after = *final(self);
        let r = self.slot_mut(node.slot);
        proof {
            Self::lemma_value_changed(*old(self), after, k, *final(r));
        }
        r
    }

    /// The first value, if there is one.
    pub fn front(&self) -> (r: Option<&T>)
        requires
            self.wf(),
        ensures
            self@.len() == 0 ==> r is None,
            self@.len() > 0 ==> r == Some(&self@[0]),
    {
        if self.head == NULL_SLOT {
            proof {
                if self.order@.len() > 0 {
                    assert(self.linked_at(0));
                    assert(self.slots.len() == self.slots@.len());
                }
            }
            None
        } else {
            proof {
                self.lemma_handles();
                assert(self.handles()[0] == NodeRef { slot: self.head });
            }
            Some(self.get(NodeRef { slot: self.head }))
        }
    }

    /// The last value, if there is one.
    pub fn back(&self) -> (r: Option<&T>)
        requires
            self.wf(),
        ensures
            self@.len() == 0 ==> r is None,
            self@.len() > 0 ==> r == Some(&self@.last()),
    {
        if self.tail == NULL_SLOT {
            proof {
                if self.order@.len() > 0 {
                    assert(self.linked_at(self.order@.len() - 1));
                    assert(self.slots.len() == self.slots@.len());
                }
            }
            None
        } else {
            proof {
                self.lemma_handles();
                assert(self.handles()[self@.len() - 1] == NodeRef { slot: self.tail });
            }
            Some(self.get(NodeRef { slot: self.tail }))
        }
    }

    /// The first value, if there is one, to be changed in place.
    pub fn front_mut(&mut self) -> (r: Option<&mut T>)
        requires
            old(self).wf(),
        ensures
            final(self).wf(),
            final(self).handles() == old(self).handles(),
            old(self)@.len() == 0 ==> r is None && final(self)@ == old(self)@,
            old(self)@.len() > 0 ==> {
                &&& r is Some
                &&& *r->0 == old(self)@[0]
                &&& final(self)@ == old(self)@.update(0, *final(r->0))
            },
    {
        if self.head == NULL_SLOT {
            proof {
                if self.order@.len() > 0 {
                    assert(self.linked_at(0));
                    assert(self.slots.len() == self.slots@.len());
                }
            }
            None
        } else {
            proof {
                self.lemma_handles();
                assert(self.handles()[0] == NodeRef { slot: self.head });
            }
            Some(self.get_mut(NodeRef { slot: self.head }))
        }
    }

    /// The last value, if there is one, to be changed in place.
    pub fn back_mut(&mut self) -> (r: Option<&mut T>)
        requires
            old(self).wf(),
        ensures
            final(self).wf(),
            final(self).handles() == old(self).handles(),
            old(self)@.len() == 0 ==> r is None && final(self)@ == old(self)@,
            old(self)@.len() > 0 ==> r is Some && *r->0 == old(self)@.last() && final(self)@
                == old(self)@.update(old(self)@.len() - 1, *final(r->0)),
    {
        if self.tail == NULL_SLOT {
            proof {
                if self.order@.len() > 0 {
                    assert(self.linked_at(self.order@.len() - 1));
                    assert(self.slots.len() == self.slots@.len());
                }
            }
            None
        } else {
            proof {
                self.lemma_handles();
                assert(self.handles()[self@.len() - 1] == NodeRef { slot: self.tail });
            }
            Some(self.get_mut(NodeRef { slot: self.tail }))
        }
    }

    /// Removes all values. Every handle to a node of this list becomes invalid.
    pub fn clear(&mut self)
        ensures
            final(self).wf(),
            final(self)@ == Seq::<T>::empty(),
            final(self).handles() == Seq::<NodeRef>::empty(),
    {
        self.slots.clear();
        self.free.clear();
        self.head = NULL_SLOT;
        self.tail = NULL_SLOT;
        self.length = 0;
        self.order = Ghost(Seq::empty());
        assert(self@ =~= Seq::<T>::empty());
        assert(self.handles() =~= Seq::<NodeRef>::empty());
    }

    /// A traversal of the values from front to back, which leaves the list as
    /// it is.
    pub fn iter(&self) -> (r: Iter<'_, T>)
        requires
            self.wf(),
        ensures
            r.wf(),
            r.list() == self,
            r.remaining() == self@,
    {
        let r = Iter { list: self, cur: self.head, pos: Ghost(0) };
        assert(r.remaining() =~= self@);
        r
    }

    /// A traversal of the values from front to back that lets each value be
    /// changed in place. The list keeps its nodes and their order.
    pub fn iter_mut(&mut self) -> (r: IterMut<'_, T>)
        requires
            old(self).wf(),
        ensures
            r.wf(),
            *r.list == *old(self),
            r.pos@ == 0,
            *final(r.list) == *final(self),
    {
        let cur = NodeRef { slot: self.head };
        IterMut { list: self, cur, pos: Ghost(0) }
    }

    /// A traversal that takes the values out of the list, front to back.
    pub fn into_iter(self) -> (r: IntoIter<T>)
        requires
            self.wf(),
        ensures
            r.wf(),
            r.remaining() == self@,
    {
        IntoIter(self)
    }
}

impl<T> Default for List<T> {
    /// An empty list.
    fn default() -> (r: Self)
        ensures
            r.wf(),
            r@ == Seq::<T>::empty(),
            r.handles() == Seq::<NodeRef>::empty(),
    {
        Self::new()
    }
}

/// A traversal of a list from front to back.
pub struct Iter<'a, T> {
    list: &'a List<T>,
    cur: usize,
    pos: Ghost<int>,
}

impl<'a, T> Iter<'a, T> {
    /// The list that is traversed.
    pub closed spec fn list(&self) -> &'a List<T> {
        self.list
    }

    /// The values still to come, next first.
    pub closed spec fn remaining(&self) -> Seq<T> {
        self.list@.skip(self.pos@)
    }

    /// The invariant of the traversal.
    pub closed spec fn wf(&self) -> bool {
        &&& self.list.wf()
        &&& 0 <= self.pos@ <= self.list.order@.len()
        &&& self.cur == (if self.pos@ < self.list.order@.len() {
            self.list.order@[self.pos@]
        } else {
            NULL_SLOT
        })
    }

    /// The next value, or `None` when the traversal has reached the end.
    pub fn next(&mut self) -> (r: Option<&'a T>)
        requires
            old(self).wf(),
        ensures
            final(self).wf(),
            final(self).list() == old(self).list(),
            old(self).remaining().len() == 0 ==> {
                &&& r is None
                &&& final(self).remaining() == old(self).remaining()
            },
            old(self).remaining().len() > 0 ==> {
                &&& r == Some(&old(self).remaining()[0])
                &&& final(self).remaining() == old(self).remaining().drop_first()
            },
    {
        let list = self.list;
        if self.cur == NULL_SLOT {
            proof {
                if self.pos@ < list.order@.len() {
                    assert(list.linked_at(self.pos@));
                    assert(list.slots.len() == list.slots@.len());
                }
            }
            return None;
        }
        let ghost k = self.pos@;
        assert(list.linked_at(k));
        proof {
            if k + 1 < list.order@.len() {
                assert(list.linked_at(k + 1));
            }
        }
        match &list.slots[self.cur] {
            Some(n) => {
                self.cur = n.next.slot;
                self.pos = Ghost(k + 1);
                assert(self.remaining() =~= old(self).remaining().drop_first());
                Some(&n.data)
            },
            None => vstd::pervasive::unreached(),
        }
    }
}

/// A traversal that owns the list and takes its values out, front to back.
pub struct IntoIter<T>(List<T>);

impl<T> IntoIter<T> {
    /// The values still to come, next first.
    pub closed spec fn remaining(&self) -> Seq<T> {
        self.0@
    }

    /// The invariant of the traversal.
    pub closed spec fn wf(&self) -> bool {
        self.0.wf()
    }

    /// The next value, or `None` when none is left.
    pub fn next(&mut self) -> (r: Option<T>)
        requires
            old(self).wf(),
        ensures
            final(self).wf(),
            old(self).remaining().len() == 0 ==> {
                &&& r is None
                &&& final(self).remaining() == old(self).remaining()
            },
            old(self).remaining().len() > 0 ==> {
                &&& r == Some(old(self).remaining()[0])
                &&& final(self).remaining() == old(self).remaining().drop_first()
            },
    {
        match self.0.pop_front() {
            Some(node) => Some(node.data),
            None => None,
        }
    }
}

/// A traversal of a list from front to back that lets each value be changed
/// in place.
pub struct IterMut<'a, T> {
    /// The list that is traversed.
    pub list: &'a mut List<T>,
    /// The handle of the node whose value comes next.
    pub cur: NodeRef,
    /// How many values have been passed.
    pub pos: Ghost<int>,
}

impl<'a, T> IterMut<'a, T> {
    /// The values still to come, next first.
    pub open spec fn remaining(&self) -> Seq<T> {
        self.list@.skip(self.pos@)
    }

    /// Whether the list is well formed, and the values that have been passed
    /// are values of the list.
    pub open spec fn within(&self) -> bool {
        self.list.wf() && 0 <= self.pos@ <= self.list@.len()
    }

    /// What the invariant gives.
    pub proof fn lemma_wf(&self)
        requires
            self.wf(),
        ensures
            self.within(),
    {
    }

    /// The invariant of the traversal.
    pub closed spec fn wf(&self) -> bool {
        &&& self.list.wf()
        &&& 0 <= self.pos@ <= self.list.order@.len()
        &&& self.cur.slot == (if self.pos@ < self.list.order@.len() {
            self.list.order@[self.pos@]
        } else {
            NULL_SLOT
        })
    }

    /// The next value, or `None` when the traversal has reached the end.
    pub fn next(&mut self) -> (r: Option<&mut T>)
        requires
            old(self).wf(),
        ensures
            final(self).wf(),
            *final(final(self).list) == *final(old(self).list),
            final(self).list.handles() == old(self).list.handles(),
            old(self).remaining().len() == 0 ==> r is None && *final(self).list == *old(self).list
                && final(self).pos@ == old(self).pos@,
            old(self).remaining().len() > 0 ==> {
                &&& r is Some
                &&& *r->0 == old(self).list@[old(self).pos@]
                &&& final(self).pos@ == old(self).pos@ + 1
                &&& final(self).list@ == old(self).list@.update(old(self).pos@, *final(r->0))
            },
    {
        if self.cur.slot == NULL_SLOT {
            proof {
                if self.pos@ < self.list.order@.len() {
                    assert(self.list.linked_at(self.pos@));
                    assert(self.list.slots.len() == self.list.slots@.len());
                }
            }
            return None;
        }
        let ghost k = self.pos@;
        assert(self.list.linked_at(k));
        proof {
            if k + 1 < self.list.order@.len() {
                assert(self.list.linked_at(k + 1));
            }
            self.list.lemma_handles();
        }
        let node = self.cur;
        assert(self.list.handles()[k] == node);
        self.cur = self.list.next(node);
        self.pos = Ghost(k + 1);
        let ghost mid = *self;
        let r = self.list.get_mut(node);
        Some(r)
    }
}

} // verus!
