//! One price level: the orders that rest at one price, first come first, and
//! the sum of what remains of them.

use crate::list::{Iter, IterMut, List, NodeRef};
use crate::order::{OrderInterface, OrderView};
use vstd::prelude::*;

verus! {

/// The sum of the remaining quantities of some orders.
pub open spec fn sum_remaining(orders: Seq<OrderView>) -> int
    decreases orders.len(),
{
    if orders.len() == 0 {
        0
    } else {
        sum_remaining(orders.drop_last()) + orders.last().remaining
    }
}

/// The sum over a sequence with one more order at its end.
pub proof fn lemma_sum_push(orders: Seq<OrderView>, o: OrderView)
    ensures
        sum_remaining(orders.push(o)) == sum_remaining(orders) + o.remaining,
{
    assert(orders.push(o).drop_last() =~= orders);
}

/// The sum over a sequence in which one order was replaced.
pub proof fn lemma_sum_update(orders: Seq<OrderView>, k: int, o: OrderView)
    requires
        0 <= k < orders.len(),
    ensures
        sum_remaining(orders.update(k, o)) == sum_remaining(orders) - orders[k].remaining
            + o.remaining,
    decreases orders.len(),
{
    if k == orders.len() - 1 {
        assert(orders.update(k, o).drop_last() =~= orders.drop_last());
    } else {
        lemma_sum_update(orders.drop_last(), k, o);
        assert(orders.update(k, o).drop_last() =~= orders.drop_last().update(k, o));
    }
}

/// The sum over a sequence from which one order was taken out.
pub proof fn lemma_sum_remove(orders: Seq<OrderView>, k: int)
    requires
        0 <= k < orders.len(),
    ensures
        sum_remaining(orders.remove(k)) == sum_remaining(orders) - orders[k].remaining,
    decreases orders.len(),
{
    if k == orders.len() - 1 {
        assert(orders.remove(k) =~= orders.drop_last());
    } else {
        lemma_sum_remove(orders.drop_last(), k);
        assert(orders.remove(k).drop_last() =~= orders.drop_last().remove(k));
    }
}

/// The sum over a sequence with one more order somewhere in it.
pub proof fn lemma_sum_insert(orders: Seq<OrderView>, k: int, o: OrderView)
    requires
        0 <= k <= orders.len(),
    ensures
        sum_remaining(orders.insert(k, o)) == sum_remaining(orders) + o.remaining,
{
    lemma_sum_remove(orders.insert(k, o), k);
    assert(orders.insert(k, o).remove(k) =~= orders);
}

/// The sum over two sequences laid end to end.
pub proof fn lemma_sum_concat(a: Seq<OrderView>, b: Seq<OrderView>)
    ensures
        sum_remaining(a + b) == sum_remaining(a) + sum_remaining(b),
    decreases b.len(),
{
    if b.len() == 0 {
        assert(a + b =~= a);
    } else {
        lemma_sum_concat(a, b.drop_last());
        assert((a + b).drop_last() =~= a + b.drop_last());
    }
}

/// Two sequences of orders of which the same remains, place by place, have
/// the same sum.
pub proof fn lemma_sum_same(a: Seq<OrderView>, b: Seq<OrderView>)
    requires
        a.len() == b.len(),
        forall|k: int| 0 <= k < a.len() ==> (#[trigger] a[k]).remaining == b[k].remaining,
    ensures
        sum_remaining(a) == sum_remaining(b),
    decreases a.len(),
{
    if a.len() > 0 {
        assert forall|k: int| 0 <= k < a.drop_last().len() implies (
        #[trigger] a.drop_last()[k]).remaining == b.drop_last()[k].remaining by {
            assert(a.drop_last()[k] == a[k]);
            assert(b.drop_last()[k] == b[k]);
        }
        lemma_sum_same(a.drop_last(), b.drop_last());
        assert(a.last() == a[a.len() - 1]);
    }
}

/// No order holds more than the sum.
pub proof fn lemma_sum_bounds(orders: Seq<OrderView>, k: int)
    requires
        0 <= k < orders.len(),
    ensures
        0 <= orders[k].remaining <= sum_remaining(orders),
        0 <= sum_remaining(orders.remove(k)),
    decreases orders.len(),
{
    lemma_sum_nonnegative(orders.remove(k));
    lemma_sum_remove(orders, k);
}

/// The sum is never negative.
pub proof fn lemma_sum_nonnegative(orders: Seq<OrderView>)
    ensures
        0 <= sum_remaining(orders),
    decreases orders.len(),
{
    if orders.len() > 0 {
        lemma_sum_nonnegative(orders.drop_last());
    }
}

/// The views of some orders.
pub open spec fn order_views<O: OrderInterface>(orders: Seq<O>) -> Seq<OrderView> {
    Seq::new(orders.len(), |k: int| orders[k]@)
}

/// The orders at one price.
pub struct Level<O: OrderInterface> {
    price: u64,
    orders: List<O>,
    total_quantity: u64,
}

impl<O: OrderInterface> View for Level<O> {
    type V = Seq<OrderView>;

    /// The orders of the level, oldest first.
    closed spec fn view(&self) -> Seq<OrderView> {
        order_views(self.orders@)
    }
}

impl<O: OrderInterface> Level<O> {
    /// The handles of the orders: `handles()[k]` is the handle of `view()[k]`.
    pub closed spec fn handles(&self) -> Seq<NodeRef> {
        self.orders.handles()
    }

    /// The price of the level.
    pub closed spec fn spec_price(&self) -> u64 {
        self.price
    }

    /// The cached total.
    pub closed spec fn spec_total_quantity(&self) -> u64 {
        self.total_quantity
    }

    /// The queue of the orders.
    pub closed spec fn spec_orders(&self) -> List<O> {
        self.orders
    }

    /// The order that a handle names.
    pub open spec fn order_at(&self, node: NodeRef) -> OrderView
        recommends
            self.wf(),
            self.handles().contains(node),
    {
        self@[self.handles().index_of(node)]
    }

    /// The invariant of the level: the cached total is the sum of what remains
    /// of its orders.
    pub closed spec fn wf(&self) -> bool {
        &&& self.orders.wf()
        &&& self.total_quantity == sum_remaining(self@)
    }

    /// The part of the invariant that does not depend on what the orders hold:
    /// the queue is well formed.
    pub closed spec fn linked(&self) -> bool {
        self.orders.wf()
    }

    /// Whether two levels have the same price, the same cached total and the
    /// same handles.
    pub closed spec fn same_frame(&self, other: &Self) -> bool {
        &&& self.price == other.price
        &&& self.total_quantity == other.total_quantity
        &&& self.orders.handles() == other.orders.handles()
    }

    /// What the invariant gives: the cached total is the sum of what remains of
    /// the orders, every order has a handle, no handle is null, and no two
    /// orders share one.
    pub proof fn lemma_wf(&self)
        requires
            self.wf(),
        ensures
            self.linked(),
            self.spec_total_quantity() == sum_remaining(self@),
            self.handles().len() == self@.len(),
            self.handles().no_duplicates(),
            forall|k: int| 0 <= k < self.handles().len() ==> !(#[trigger] self.handles()[k]).is_null(),
            forall|k: int|
                0 <= k < self.handles().len() ==> self.handles().index_of(
                    #[trigger] self.handles()[k],
                ) == k,
    {
        self.orders.lemma_handles();
    }

    /// What the queue being well formed gives: every order has a handle, no
    /// handle is null, and no two orders share one.
    pub proof fn lemma_linked(&self)
        requires
            self.linked(),
        ensures
            self.handles().len() == self@.len(),
            self.handles().no_duplicates(),
            forall|k: int| 0 <= k < self.handles().len() ==> !(#[trigger] self.handles()[k]).is_null(),
            forall|k: int|
                0 <= k < self.handles().len() ==> self.handles().index_of(
                    #[trigger] self.handles()[k],
                ) == k,
    {
        self.orders.lemma_handles();
    }

    /// What holds of the frame of a level.
    pub proof fn lemma_frame(&self, other: &Self)
        requires
            self.same_frame(other),
        ensures
            self.handles() == other.handles(),
            self.spec_price() == other.spec_price(),
            self.spec_total_quantity() == other.spec_total_quantity(),
    {
    }

    /// A level has its own frame, and levels that share a frame with a third
    /// share theirs.
    pub proof fn lemma_frames(a: &Self, b: &Self, c: &Self)
        ensures
            a.same_frame(a),
            a.same_frame(b) && b.same_frame(c) ==> a.same_frame(c),
    {
    }

    /// A level whose orders were changed in place is well formed again if the
    /// same remains of each order as before.
    pub proof fn lemma_restored(before: &Self, after: &Self)
        requires
            before.wf(),
            after.linked(),
            after.same_frame(before),
            after@.len() == before@.len(),
            forall|k: int|
                0 <= k < after@.len() ==> (#[trigger] after@[k]).remaining == before@[k].remaining,
        ensures
            after.wf(),
            after.handles() == before.handles(),
            after.spec_price() == before.spec_price(),
    {
        lemma_sum_same(after@, before@);
    }

    /// An empty level at a price.
    pub fn new(price: u64) -> (r: Self)
        ensures
            r.wf(),
            r.spec_price() == price,
            r@ == Seq::<OrderView>::empty(),
            r.handles() == Seq::<NodeRef>::empty(),
    {
        let r = Level { price, orders: List::new(), total_quantity: 0 };
        assert(r@ =~= Seq::<OrderView>::empty());
        r
    }

    /// The price of the level.
    #[verifier::when_used_as_spec(spec_price)]
    pub fn price(&self) -> (r: u64)
        ensures
            r == self.spec_price(),
    {
        self.price
    }

    /// The sum of what remains of the orders of the level.
    pub fn total_quantity(&self) -> (r: u64)
        requires
            self.wf(),
        ensures
            r == sum_remaining(self@),
    {
        self.total_quantity
    }

    /// The number of orders.
    pub fn order_count(&self) -> (r: usize)
        requires
            self.wf(),
        ensures
            r == self@.len(),
    {
        self.orders.len()
    }

    pub fn is_empty(&self) -> (r: bool)
        requires
            self.wf(),
        ensures
            r == (self@.len() == 0),
    {
        self.orders.is_empty()
    }

    /// Appends an order, and returns its handle. The total must stay within
    /// 64 bits.
    pub fn add_order(&mut self, order: O) -> (r: NodeRef)
        requires
            old(self).wf(),
            sum_remaining(old(self)@) + order@.remaining <= u64::MAX,
        ensures
            final(self).wf(),
            final(self).spec_price() == old(self).spec_price(),
            final(self)@ == old(self)@.push(order@),
            final(self).handles() == old(self).handles().push(r),
            !old(self).handles().contains(r),
            !r.is_null(),
    {
        proof {
            lemma_sum_push(self@, order@);
        }
        self.total_quantity = self.total_quantity + order.remaining();
        let r = self.orders.push_back(order);
        assert(self@ =~= old(self)@.push(order@));
        r
    }

    /// Fills `fill` of the order that `node` names. If nothing remains of the
    /// order, it is removed from the level, and the result is `true`.
    pub fn fill_order(&mut self, node: NodeRef, fill: u64) -> (r: bool)
        requires
            old(self).wf(),
            old(self).handles().contains(node),
            fill <= old(self).order_at(node).remaining,
        ensures
            final(self).wf(),
            final(self).spec_price() == old(self).spec_price(),
            ({
                let k = old(self).handles().index_of(node);
                let filled = old(self)@[k].filled(fill);
                &&& r == (filled.remaining == 0)
                &&& r ==> {
                    &&& final(self)@ == old(self)@.remove(k)
                    &&& final(self).handles() == old(self).handles().remove(k)
                }
                &&& !r ==> final(self)@ == old(self)@.update(k, filled) && final(self).handles()
                    == old(self).handles()
            }),
    {
        let ghost k = self.handles().index_of(node);
        proof {
            self.orders.lemma_handles();
            lemma_sum_bounds(self@, k);
            lemma_sum_update(self@, k, self@[k].filled(fill));
        }
        let order = self.orders.get_mut(node);
        order.fill(fill);
        let left = order.remaining();
        self.total_quantity = self.total_quantity - fill;
        assert(self@ =~= old(self)@.update(k, old(self)@[k].filled(fill)));
        if left == 0 {
            proof {
                lemma_sum_remove(self@, k);
                assert(self@.remove(k) =~= old(self)@.remove(k));
            }
            self.orders.remove(node);
            assert(self@ =~= old(self)@.remove(k));
            true
        } else {
            false
        }
    }

    /// Removes the order that `node` names. For the null handle nothing is
    /// removed. The handle must be null or name an order of this level.
    pub fn remove_order(&mut self, node: NodeRef)
        requires
            old(self).wf(),
            node.is_null() || old(self).handles().contains(node),
        ensures
            final(self).wf(),
            final(self).spec_price() == old(self).spec_price(),
            node.is_null() ==> {
                &&& final(self)@ == old(self)@
                &&& final(self).handles() == old(self).handles()
            },
            !node.is_null() ==> {
                let k = old(self).handles().index_of(node);
                &&& final(self)@ == old(self)@.remove(k)
                &&& final(self).handles() == old(self).handles().remove(k)
            },
    {
        let ghost k = self.handles().index_of(node);
        proof {
            self.orders.lemma_handles();
            if !node.is_null() {
                lemma_sum_bounds(self@, k);
                lemma_sum_remove(self@, k);
            }
        }
        let removed = self.orders.remove(node);
        if let Some(order) = removed {
            self.total_quantity = self.total_quantity - order.remaining();
            assert(self@ =~= old(self)@.remove(k));
        } else {
            assert(self@ =~= old(self)@);
        }
    }

    /// The handle of the oldest order, or the null handle if the level is empty.
    pub fn head(&self) -> (r: NodeRef)
        requires
            self.linked(),
        ensures
            r == (if self@.len() == 0 {
                NodeRef::null()
            } else {
                self.handles()[0]
            }),
    {
        self.orders.head()
    }

    /// The handle of the order that came next after the one that `node` names,
    /// or the null handle if that one is the youngest.
    pub fn next(&self, node: NodeRef) -> (r: NodeRef)
        requires
            self.linked(),
            self.handles().contains(node),
        ensures
            r == (if self.handles().index_of(node) + 1 < self@.len() {
                self.handles()[self.handles().index_of(node) + 1]
            } else {
                NodeRef::null()
            }),
    {
        self.orders.next(node)
    }

    /// The order that `node` names.
    pub fn get(&self, node: NodeRef) -> (r: &O)
        requires
            self.wf(),
            self.handles().contains(node),
        ensures
            r@ == self@[self.handles().index_of(node)],
    {
        proof {
            self.orders.lemma_handles();
        }
        self.orders.get(node)
    }

    /// The order that `node` names, to be changed in place. The level keeps its
    /// orders in their places, and its cached total: it is well formed
    /// afterwards only if the same remains of the order as before.
    pub fn get_mut(&mut self, node: NodeRef) -> (r: &mut O)
        requires
            old(self).linked(),
            old(self).handles().contains(node),
        ensures
            r@ == old(self)@[old(self).handles().index_of(node)],
            final(self).linked(),
            final(self).same_frame(old(self)),
            final(self)@ == old(self)@.update(
                old(self).handles().index_of(node),
                (*final(r))@,
            ),
    {
        let ghost k = self.handles().index_of(node);
        let ghost after = *final(self);
        proof {
            self.orders.lemma_handles();
        }
        let r = self.orders.get_mut(node);
        proof {
            assert(after@ =~= old(self)@.update(k, (*final(r))@));
        }
        r
    }

    /// A traversal of the orders, oldest first.
    pub fn iter(&self) -> (r: Iter<'_, O>)
        requires
            self.wf(),
        ensures
            r.wf(),
            order_views(r.remaining()) == self@,
    {
        self.orders.iter()
    }

    /// A traversal of the orders, oldest first, that lets each order be changed
    /// in place. The level keeps its cached total: it is well formed afterwards
    /// only if the same remains of each order as before.
    pub fn iter_mut(&mut self) -> (r: IterMut<'_, O>)
        requires
            old(self).linked(),
        ensures
            r.wf(),
            *r.list == old(self).spec_orders(),
            r.pos@ == 0,
            *final(r.list) == final(self).spec_orders(),
            final(self).spec_price() == old(self).spec_price(),
            final(self).spec_total_quantity() == old(self).spec_total_quantity(),
    {
        self.orders.iter_mut()
    }
}

} // verus!
