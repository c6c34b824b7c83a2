//! One side of the book: the price levels of the bids or of the asks, best
//! price first.
//!
//! To contracts a side is the sequence of its orders in price-time priority
//! (`view`): level by level from the best price on, and within a level oldest
//! first. Beside it stands the handle of each order (`handles`).

use crate::flat::{
    lemma_cut,
    lemma_insert,
    lemma_locate,
    lemma_member,
    lemma_offsets_ordered,
    lemma_remove,
    lemma_same_shape,
    lemma_split,
    lemma_update,
    offset,
};
use crate::level::{
    lemma_sum_concat,
    lemma_sum_insert,
    lemma_sum_nonnegative,
    lemma_sum_remove,
    lemma_sum_same,
    lemma_sum_update,
    sum_remaining,
    Level,
};
use crate::list::NodeRef;
use crate::order::{OrderInterface, OrderView};
use vstd::prelude::*;

verus! {

/// Whether price `p` is strictly better than price `q`: higher for bids, lower
/// for asks.
pub open spec fn better(is_bid: bool, p: u64, q: u64) -> bool {
    if is_bid {
        p > q
    } else {
        p < q
    }
}

/// Whether no order comes before one at a better price.
pub open spec fn in_priority_order(orders: Seq<OrderView>, is_bid: bool) -> bool {
    forall|a: int, b: int|
        0 <= a < b < orders.len() ==> !better(is_bid, orders[b].price, orders[a].price)
}

/// The place of a new order at `price` among orders in priority order: behind
/// every order at a price that is better or the same.
pub open spec fn rank(orders: Seq<OrderView>, is_bid: bool, price: u64) -> int
    decreases orders.len(),
{
    if orders.len() == 0 || better(is_bid, price, orders[0].price) {
        0
    } else {
        1 + rank(orders.drop_first(), is_bid, price)
    }
}

/// The rank is the place that has only orders at better or equal prices before
/// it and an order at a worse price, or none, at it.
pub proof fn lemma_rank(orders: Seq<OrderView>, is_bid: bool, price: u64, k: int)
    requires
        0 <= k <= orders.len(),
        forall|j: int| 0 <= j < k ==> !better(is_bid, price, #[trigger] orders[j].price),
        k < orders.len() ==> better(is_bid, price, orders[k].price),
    ensures
        rank(orders, is_bid, price) == k,
    decreases k,
{
    if k > 0 {
        let rest = orders.drop_first();
        assert(!better(is_bid, price, orders[0].price));
        assert forall|j: int| 0 <= j < k - 1 implies !better(
            is_bid,
            price,
            #[trigger] rest[j].price,
        ) by {
            assert(rest[j] == orders[j + 1]);
        }
        lemma_rank(rest, is_bid, price, k - 1);
    }
}

/// A handle to an order that rests on a side: the side, the price level and
/// the node of the order in that level.
#[derive(Clone, Copy, Debug, PartialEq, Eq, Hash, Structural)]
pub struct OrderRef {
    is_bid: bool,
    price: u64,
    node: NodeRef,
}

impl OrderRef {
    /// Whether the order rests on a bid side.
    pub closed spec fn spec_is_bid(&self) -> bool {
        self.is_bid
    }

    /// The price of the level that holds the order.
    pub closed spec fn spec_price(&self) -> u64 {
        self.price
    }

    /// Whether the order rests on a bid side.
    #[verifier::when_used_as_spec(spec_is_bid)]
    pub fn is_bid(&self) -> (r: bool)
        ensures
            r == self.spec_is_bid(),
    {
        self.is_bid
    }

    /// The price of the level that holds the order.
    #[verifier::when_used_as_spec(spec_price)]
    pub fn price(&self) -> (r: u64)
        ensures
            r == self.spec_price(),
    {
        self.price
    }
}

/// Whether price `p` is strictly better than price `q` on a side.
fn is_better(is_bid: bool, p: u64, q: u64) -> (r: bool)
    ensures
        r == better(is_bid, p, q),
{
    if is_bid {
        p > q
    } else {
        p < q
    }
}

/// One side of the book.
pub struct Side<O: OrderInterface> {
    is_bid: bool,
    levels: Vec<Level<O>>,
    total_quantity: u64,
}

impl<O: OrderInterface> View for Side<O> {
    type V = Seq<OrderView>;

    /// The orders of the side in price-time priority.
    closed spec fn view(&self) -> Seq<OrderView> {
        self.levels().flatten()
    }
}

impl<O: OrderInterface> Side<O> {
    /// Whether this is the bid side.
    pub closed spec fn spec_is_bid(&self) -> bool {
        self.is_bid
    }

    /// The cached total.
    pub closed spec fn spec_total_quantity(&self) -> u64 {
        self.total_quantity
    }

    /// The orders of the side level by level, best price first.
    pub closed spec fn levels(&self) -> Seq<Seq<OrderView>> {
        Seq::new(self.levels@.len(), |i: int| self.levels@[i]@)
    }

    /// The cached totals of the levels, best price first.
    pub closed spec fn level_totals(&self) -> Seq<u64> {
        Seq::new(self.levels@.len(), |i: int| self.levels@[i].spec_total_quantity())
    }

    /// The handles of the orders level by level.
    pub closed spec fn level_handles(&self) -> Seq<Seq<OrderRef>> {
        Seq::new(self.levels@.len(), |i: int| self.handles_of(self.levels@[i]))
    }

    spec fn handles_of(&self, l: Level<O>) -> Seq<OrderRef> {
        Seq::new(
            l.handles().len(),
            |j: int| OrderRef { is_bid: self.is_bid, price: l.spec_price(), node: l.handles()[j] },
        )
    }

    /// The handles of the orders: `handles()[k]` is the handle of `view()[k]`.
    pub closed spec fn handles(&self) -> Seq<OrderRef> {
        self.level_handles().flatten()
    }

    /// The order that a handle names.
    pub open spec fn order_at(&self, handle: OrderRef) -> OrderView
        recommends
            self.wf(),
            self.handles().contains(handle),
    {
        self@[self.handles().index_of(handle)]
    }

    spec fn level_ok(&self, i: int) -> bool {
        let l = self.levels@[i];
        &&& l.wf()
        &&& l@.len() > 0
        &&& forall|j: int| 0 <= j < l@.len() ==> (#[trigger] l@[j]).price == l.spec_price()
    }

    /// The invariant of the side: no level is empty, every order rests in the
    /// level of its price, the levels stand in the order of their prices, best
    /// first, and the cached total is the sum of what remains of all orders.
    pub closed spec fn wf(&self) -> bool {
        &&& forall|i: int| 0 <= i < self.levels@.len() ==> self.level_ok(i)
        &&& forall|i: int, j: int|
            0 <= i < j < self.levels@.len() ==> better(
                self.is_bid,
                #[trigger] self.levels@[i].spec_price(),
                #[trigger] self.levels@[j].spec_price(),
            )
        &&& self.total_quantity == sum_remaining(self@)
    }

    /// The part of the invariant that does not depend on what the orders hold:
    /// the queue of every level is well formed, and no level is empty.
    pub closed spec fn linked(&self) -> bool {
        forall|i: int|
            0 <= i < self.levels@.len() ==> (#[trigger] self.levels@[i]).linked()
                && self.levels@[i]@.len() > 0
    }

    /// Whether two sides are for the same kind of orders and have the same
    /// cached total, and their levels have the same prices, cached totals and
    /// handles.
    pub closed spec fn same_frame(&self, other: &Self) -> bool {
        &&& self.is_bid == other.is_bid
        &&& self.total_quantity == other.total_quantity
        &&& self.levels@.len() == other.levels@.len()
        &&& forall|i: int|
            0 <= i < self.levels@.len() ==> (#[trigger] self.levels@[i]).same_frame(
                &other.levels@[i],
            )
    }

    /// The level and the place in it of the order at place `p` of the side.
    proof fn lemma_place(&self, p: int) -> (at: (int, int))
        requires
            self.wf(),
            0 <= p < self@.len(),
        ensures
            0 <= at.0 < self.levels@.len(),
            0 <= at.1 < self.levels@[at.0]@.len(),
            p == offset(self.levels(), at.0) + at.1,
            p == offset(self.level_handles(), at.0) + at.1,
            self@[p] == self.levels@[at.0]@[at.1],
            self@[p].price == self.levels@[at.0].spec_price(),
            self.handles().len() == self@.len(),
            self.handles()[p] == self.handles_of(self.levels@[at.0])[at.1],
            self.handles()[p].price == self@[p].price,
            self.handles()[p].is_bid == self.is_bid,
            self.handles()[p].node == self.levels@[at.0].handles()[at.1],
    {
        let at = lemma_locate(self.levels(), p);
        self.lemma_shape(at.0);
        self.lemma_shape(self.levels@.len() as int);
        assert(self.level_ok(at.0));
        self.levels@[at.0].lemma_wf();
        lemma_member(self.level_handles(), at.0, at.1);
        at
    }

    /// Orders and handles are grouped alike.
    proof fn lemma_shape(&self, i: int)
        requires
            self.wf(),
            0 <= i <= self.levels@.len(),
        ensures
            offset(self.levels(), i) == offset(self.level_handles(), i),
            self.handles().len() == self@.len(),
    {
        assert forall|k: int| 0 <= k < self.levels@.len() implies self.levels()[k].len()
            == self.level_handles()[k].len() by {
            assert(self.level_ok(k));
            self.levels@[k].lemma_wf();
        }
        lemma_same_shape(self.levels(), self.level_handles(), i);
        lemma_same_shape(self.levels(), self.level_handles(), self.levels@.len() as int);
        assert(self.levels().take(self.levels@.len() as int) =~= self.levels());
        assert(self.level_handles().take(self.levels@.len() as int) =~= self.level_handles());
    }

    /// Where the levels stand in the side: the orders before level `i` are those
    /// of the levels before it.
    proof fn lemma_level_of(&self, p: int, at: (int, int), i: int)
        requires
            self.wf(),
            0 <= at.0 < self.levels@.len(),
            0 <= at.1 < self.levels@[at.0]@.len(),
            p == offset(self.levels(), at.0) + at.1,
            0 <= i <= self.levels@.len(),
        ensures
            p < offset(self.levels(), i) <==> at.0 < i,
    {
        if at.0 < i {
            lemma_split(self.levels(), at.0);
            lemma_offsets_ordered(self.levels(), at.0 + 1, i);
        } else {
            lemma_offsets_ordered(self.levels(), i, at.0);
        }
    }

    /// What the invariant gives: every order has a handle, which names its side
    /// and its price; no two orders share a handle; the orders stand in
    /// priority order; and the cached total is the sum of what remains of them.
    pub proof fn lemma_wf(&self)
        requires
            self.wf(),
        ensures
            self.handles().len() == self@.len(),
            self.handles().no_duplicates(),
            forall|k: int|
                0 <= k < self@.len() ==> self.handles().index_of(#[trigger] self.handles()[k])
                    == k,
            forall|k: int|
                0 <= k < self@.len() ==> (#[trigger] self.handles()[k]).spec_price()
                    == self@[k].price,
            forall|k: int|
                0 <= k < self@.len() ==> (#[trigger] self.handles()[k]).spec_is_bid()
                    == self.spec_is_bid(),
            in_priority_order(self@, self.spec_is_bid()),
            self.spec_total_quantity() == sum_remaining(self@),
            self.levels().flatten() == self@,
    {
        self.lemma_shape(0);
        assert forall|a: int, b: int| 0 <= a < b < self@.len() implies !better(
            self.is_bid,
            #[trigger] self@[b].price,
            #[trigger] self@[a].price,
        ) by {
            let x = self.lemma_place(a);
            let y = self.lemma_place(b);
            self.lemma_level_of(a, x, y.0);
            self.lemma_level_of(b, y, x.0);
        }
        assert forall|a: int, b: int|
            0 <= a < self.handles().len() && 0 <= b < self.handles().len() && a
                != b implies self.handles()[a] != self.handles()[b] by {
            let x = self.lemma_place(a);
            let y = self.lemma_place(b);
            self.lemma_level_of(a, x, y.0);
            self.lemma_level_of(b, y, x.0);
            if x.0 == y.0 {
                assert(self.level_ok(x.0));
                self.levels@[x.0].lemma_wf();
            }
        }
        assert forall|k: int| 0 <= k < self@.len() implies self.handles().index_of(
            #[trigger] self.handles()[k],
        ) == k by {
            assert(self.handles().contains(self.handles()[k]));
        }
        assert forall|k: int| 0 <= k < self@.len() implies (
        #[trigger] self.handles()[k]).spec_price() == self@[k].price && self.handles()[k].spec_is_bid()
            == self.spec_is_bid() by {
            self.lemma_place(k);
        }
    }

    /// What the invariant gives of the levels: laid end to end they are the
    /// orders of the side; no level is empty; the cached total of a level is the
    /// sum of what remains of its orders; the orders of a level have one price;
    /// and the prices of the levels get strictly worse from level to level.
    pub proof fn lemma_levels(&self)
        requires
            self.wf(),
        ensures
            self.levels().flatten() == self@,
            self.level_totals().len() == self.levels().len(),
            forall|i: int|
                0 <= i < self.levels().len() ==> (#[trigger] self.levels()[i]).len() > 0,
            forall|i: int|
                0 <= i < self.levels().len() ==> (#[trigger] self.level_totals()[i])
                    == sum_remaining(self.levels()[i]),
            forall|i: int, j: int|
                0 <= i < self.levels().len() && 0 <= j < self.levels()[i].len() ==> (
                #[trigger] self.levels()[i][j]).price == self.levels()[i][0].price,
            forall|i: int, j: int|
                0 <= i < j < self.levels().len() ==> better(
                    self.spec_is_bid(),
                    (#[trigger] self.levels()[i])[0].price,
                    (#[trigger] self.levels()[j])[0].price,
                ),
    {
        assert forall|i: int| 0 <= i < self.levels().len() implies {
            &&& (#[trigger] self.levels()[i]).len() > 0
            &&& self.level_totals()[i] == sum_remaining(self.levels()[i])
            &&& self.levels()[i][0].price == self.levels@[i].spec_price()
        } by {
            assert(self.level_ok(i));
            self.levels@[i].lemma_wf();
        }
        assert forall|i: int, j: int|
            0 <= i < self.levels().len() && 0 <= j < self.levels()[i].len() implies (
        #[trigger] self.levels()[i][j]).price == self.levels()[i][0].price by {
            assert(self.level_ok(i));
        }
        assert forall|i: int, j: int| 0 <= i < j < self.levels().len() implies better(
            self.spec_is_bid(),
            (#[trigger] self.levels()[i])[0].price,
            (#[trigger] self.levels()[j])[0].price,
        ) by {
            assert(self.levels()[i].len() > 0);
            assert(self.levels()[j].len() > 0);
            assert(better(
                self.is_bid,
                self.levels@[i].spec_price(),
                self.levels@[j].spec_price(),
            ));
        }
    }

    /// A well-formed side is linked.
    pub proof fn lemma_linked(&self)
        requires
            self.wf(),
        ensures
            self.linked(),
    {
        assert forall|i: int| 0 <= i < self.levels@.len() implies (
        #[trigger] self.levels@[i]).linked() && self.levels@[i]@.len() > 0 by {
            assert(self.level_ok(i));
            self.levels@[i].lemma_wf();
        }
    }

    /// A side has its own frame, and sides that share a frame with a third
    /// share theirs.
    pub proof fn lemma_frames(a: &Self, b: &Self, c: &Self)
        ensures
            a.same_frame(a),
            a.same_frame(b) && b.same_frame(c) ==> a.same_frame(c),
    {
        assert forall|i: int| 0 <= i < a.levels@.len() implies (#[trigger] a.levels@[i]).same_frame(
            &a.levels@[i],
        ) by {
            Level::lemma_frames(&a.levels@[i], &a.levels@[i], &a.levels@[i]);
        }
        if a.same_frame(b) && b.same_frame(c) {
            assert forall|i: int| 0 <= i < a.levels@.len() implies (
            #[trigger] a.levels@[i]).same_frame(&c.levels@[i]) by {
                assert(a.levels@[i].same_frame(&b.levels@[i]));
                assert(b.levels@[i].same_frame(&c.levels@[i]));
                Level::lemma_frames(&a.levels@[i], &b.levels@[i], &c.levels@[i]);
            }
        }
    }

    /// Sides with the same frame group their orders alike, and have the same
    /// handles.
    proof fn lemma_same_frame(&self, other: &Self, i: int)
        requires
            self.linked(),
            other.linked(),
            self.same_frame(other),
            0 <= i <= self.levels@.len(),
        ensures
            self@.len() == other@.len(),
            self.handles() == other.handles(),
            offset(self.levels(), i) == offset(other.levels(), i),
    {
        let n = self.levels@.len() as int;
        assert forall|k: int| 0 <= k < n implies (#[trigger] self.levels()[k]).len()
            == other.levels()[k].len() by {
            assert(self.levels@[k].same_frame(&other.levels@[k]));
            self.levels@[k].lemma_frame(&other.levels@[k]);
            assert(self.levels@[k].linked());
            assert(other.levels@[k].linked());
            self.levels@[k].lemma_linked();
            other.levels@[k].lemma_linked();
        }
        assert forall|k: int| 0 <= k < n implies (#[trigger] self.level_handles()[k])
            == other.level_handles()[k] by {
            assert(self.levels@[k].same_frame(&other.levels@[k]));
            self.levels@[k].lemma_frame(&other.levels@[k]);
            assert(self.handles_of(self.levels@[k]) =~= other.handles_of(other.levels@[k]));
        }
        lemma_same_shape(self.levels(), other.levels(), i);
        lemma_same_shape(self.levels(), other.levels(), n);
        assert(self.levels().take(n) =~= self.levels());
        assert(other.levels().take(n) =~= other.levels());
        assert(self.level_handles() =~= other.level_handles());
    }

    /// A side whose orders were changed in place is well formed again if each
    /// order has the same price as before, and the same remains of it.
    pub proof fn lemma_restored(before: &Self, after: &Self)
        requires
            before.wf(),
            after.linked(),
            after.same_frame(before),
            after@.len() == before@.len(),
            forall|k: int|
                0 <= k < after@.len() ==> (#[trigger] after@[k]).price == before@[k].price
                    && after@[k].remaining == before@[k].remaining,
        ensures
            after.wf(),
            after.handles() == before.handles(),
            after.spec_is_bid() == before.spec_is_bid(),
    {
        before.lemma_linked();
        after.lemma_same_frame(before, 0);
        assert forall|i: int| 0 <= i < after.levels@.len() implies after.level_ok(i) by {
            let a = after.levels@[i];
            let b = before.levels@[i];
            assert(before.level_ok(i));
            assert(a.linked());
            assert(a.same_frame(&b));
            a.lemma_frame(&b);
            a.lemma_linked();
            b.lemma_wf();
            after.lemma_same_frame(before, i);
            assert forall|j: int| 0 <= j < a@.len() implies (#[trigger] a@[j]).price
                == b@[j].price && a@[j].remaining == b@[j].remaining by {
                lemma_member(after.levels(), i, j);
                lemma_member(before.levels(), i, j);
                assert(after@[offset(after.levels(), i) + j] == a@[j]);
                assert(before@[offset(before.levels(), i) + j] == b@[j]);
            }
            Level::lemma_restored(&b, &a);
        }
        assert forall|i: int, j: int| 0 <= i < j < after.levels@.len() implies better(
            after.is_bid,
            #[trigger] after.levels@[i].spec_price(),
            #[trigger] after.levels@[j].spec_price(),
        ) by {
            assert(after.levels@[i].same_frame(&before.levels@[i]));
            assert(after.levels@[j].same_frame(&before.levels@[j]));
            after.levels@[i].lemma_frame(&before.levels@[i]);
            after.levels@[j].lemma_frame(&before.levels@[j]);
            assert(better(
                before.is_bid,
                before.levels@[i].spec_price(),
                before.levels@[j].spec_price(),
            ));
        }
        lemma_sum_same(after@, before@);
    }

    /// An empty side, for bids or for asks.
    pub fn new(is_bid: bool) -> (r: Self)
        ensures
            r.wf(),
            r.spec_is_bid() == is_bid,
            r@ == Seq::<OrderView>::empty(),
            r.handles() == Seq::<OrderRef>::empty(),
            r.levels() == Seq::<Seq<OrderView>>::empty(),
    {
        let r = Side { is_bid, levels: Vec::new(), total_quantity: 0 };
        assert(r.levels() =~= Seq::<Seq<OrderView>>::empty());
        assert(r.level_handles() =~= Seq::<Seq<OrderRef>>::empty());
        r
    }

    /// Whether this is the bid side.
    #[verifier::when_used_as_spec(spec_is_bid)]
    pub fn is_bid(&self) -> (r: bool)
        ensures
            r == self.spec_is_bid(),
    {
        self.is_bid
    }

    /// The number of price levels.
    pub fn height(&self) -> (r: usize)
        requires
            self.wf(),
        ensures
            r == self.levels().len(),
    {
        self.levels.len()
    }

    /// Whether no order rests on this side.
    pub fn is_empty(&self) -> (r: bool)
        requires
            self.wf(),
        ensures
            r == (self@.len() == 0),
    {
        proof {
            if self.levels@.len() > 0 {
                assert(self.level_ok(0));
                lemma_member(self.levels(), 0, 0);
            }
        }
        self.levels.len() == 0
    }

    /// The sum of what remains of the orders of this side.
    pub fn total_quantity(&self) -> (r: u64)
        requires
            self.wf(),
        ensures
            r == sum_remaining(self@),
    {
        self.total_quantity
    }

    /// The price of level `i`, counted from the best price.
    pub fn level_price(&self, i: usize) -> (r: u64)
        requires
            self.wf(),
            i < self.levels().len(),
        ensures
            r == self.levels()[i as int][0].price,
    {
        proof {
            assert(self.level_ok(i as int));
        }
        self.levels[i].price()
    }

    /// The sum of what remains of the orders of level `i`, counted from the best
    /// price.
    pub fn level_quantity(&self, i: usize) -> (r: u64)
        requires
            self.wf(),
            i < self.levels().len(),
        ensures
            r == sum_remaining(self.levels()[i as int]),
    {
        proof {
            assert(self.level_ok(i as int));
        }
        self.levels[i].total_quantity()
    }

    /// The number of orders of level `i`, counted from the best price.
    pub fn level_order_count(&self, i: usize) -> (r: usize)
        requires
            self.wf(),
            i < self.levels().len(),
        ensures
            r == self.levels()[i as int].len(),
    {
        proof {
            assert(self.level_ok(i as int));
        }
        self.levels[i].order_count()
    }

    /// The first level whose price is not better than `price`: the level of
    /// that price if there is one, else the level before which it would stand.
    fn find_level(&self, price: u64) -> (i: usize)
        requires
            self.wf(),
        ensures
            i <= self.levels@.len(),
            forall|k: int|
                0 <= k < i ==> better(self.is_bid, #[trigger] self.levels@[k].spec_price(), price),
            forall|k: int|
                i <= k < self.levels@.len() ==> !better(
                    self.is_bid,
                    #[trigger] self.levels@[k].spec_price(),
                    price,
                ),
    {
        let mut lo: usize = 0;
        let mut hi: usize = self.levels.len();
        while lo < hi
            invariant
                self.wf(),
                lo <= hi <= self.levels@.len(),
                forall|k: int|
                    0 <= k < lo ==> better(
                        self.is_bid,
                        #[trigger] self.levels@[k].spec_price(),
                        price,
                    ),
                forall|k: int|
                    hi <= k < self.levels@.len() ==> !better(
                        self.is_bid,
                        #[trigger] self.levels@[k].spec_price(),
                        price,
                    ),
            decreases hi - lo,
        {
            let mid = lo + (hi - lo) / 2;
            if is_better(self.is_bid, self.levels[mid].price(), price) {
                lo = mid + 1;
            } else {
                hi = mid;
            }
        }
        lo
    }

    /// A side in which level `i` got one more order at its end.
    proof fn lemma_order_added(before: &Self, after: &Self, i: int, o: OrderView, node: NodeRef)
        requires
            before.wf(),
            0 <= i < before.levels@.len(),
            before.levels@[i].spec_price() == o.price,
            after.is_bid == before.is_bid,
            after.total_quantity == before.total_quantity + o.remaining,
            after.levels@.len() == before.levels@.len(),
            forall|k: int|
                0 <= k < before.levels@.len() && k != i ==> after.levels@[k] == before.levels@[k],
            after.levels@[i].wf(),
            after.levels@[i].spec_price() == o.price,
            after.levels@[i]@ == before.levels@[i]@.push(o),
            after.levels@[i].handles() == before.levels@[i].handles().push(node),
            !before.levels@[i].handles().contains(node),
        ensures
            after.wf(),
            ({
                let k = rank(before@, before.is_bid, o.price);
                let r = OrderRef { is_bid: before.is_bid, price: o.price, node };
                &&& 0 <= k <= before@.len()
                &&& after@ == before@.insert(k, o)
                &&& after.handles() == before.handles().insert(k, r)
                &&& !before.handles().contains(r)
            }),
    {
        let r = OrderRef { is_bid: before.is_bid, price: o.price, node };
        let p = offset(before.levels(), i) + before.levels@[i]@.len();
        assert(before.level_ok(i));
        before.levels@[i].lemma_wf();
        before.lemma_shape(i);
        before.lemma_wf();
        lemma_split(before.levels(), i);
        lemma_split(before.level_handles(), i);
        lemma_cut(before.levels(), i + 1);
        // The flattened sequences.
        assert(after.levels() =~= before.levels().update(i, before.levels@[i]@.push(o)));
        assert(after.handles_of(after.levels@[i]) =~= before.handles_of(before.levels@[i]).push(r));
        assert(after.level_handles() =~= before.level_handles().update(
            i,
            before.handles_of(before.levels@[i]).push(r),
        )) by {
            assert forall|k: int| 0 <= k < before.levels@.len() && k != i implies after.handles_of(
                after.levels@[k],
            ) == before.handles_of(before.levels@[k]) by {
                assert(after.handles_of(after.levels@[k]) =~= before.handles_of(
                    before.levels@[k],
                ));
            }
        }
        lemma_update(before.levels(), i, before.levels@[i]@.push(o));
        lemma_update(
            before.level_handles(),
            i,
            before.handles_of(before.levels@[i]).push(r),
        );
        assert(after@ =~= before@.insert(p, o));
        assert(after.handles() =~= before.handles().insert(p, r));
        // The place is the rank.
        assert forall|j: int| 0 <= j < p implies !better(
            before.is_bid,
            o.price,
            #[trigger] before@[j].price,
        ) by {
            let at = before.lemma_place(j);
            before.lemma_level_of(j, at, i + 1);
        }
        if p < before@.len() {
            let at = before.lemma_place(p);
            before.lemma_level_of(p, at, i + 1);
        }
        lemma_rank(before@, before.is_bid, o.price, p);
        // The handle is new.
        if before.handles().contains(r) {
            let q = before.handles().index_of(r);
            let at = before.lemma_place(q);
            if at.0 != i {
                if at.0 < i {
                    assert(better(
                        before.is_bid,
                        before.levels@[at.0].spec_price(),
                        before.levels@[i].spec_price(),
                    ));
                } else {
                    assert(better(
                        before.is_bid,
                        before.levels@[i].spec_price(),
                        before.levels@[at.0].spec_price(),
                    ));
                }
            }
            assert(before.levels@[i].handles()[at.1] == node);
        }
        // The invariant.
        assert forall|k: int| 0 <= k < after.levels@.len() implies after.level_ok(k) by {
            assert(before.level_ok(k));
        }
        assert forall|a: int, b: int| 0 <= a < b < after.levels@.len() implies better(
            after.is_bid,
            #[trigger] after.levels@[a].spec_price(),
            #[trigger] after.levels@[b].spec_price(),
        ) by {
            assert(better(
                before.is_bid,
                before.levels@[a].spec_price(),
                before.levels@[b].spec_price(),
            ));
        }
        lemma_sum_insert(before@, p, o);
    }

    /// A side that got a new level, with one order, before level `i`.
    proof fn lemma_level_added(before: &Self, after: &Self, i: int, o: OrderView, node: NodeRef)
        requires
            before.wf(),
            0 <= i <= before.levels@.len(),
            forall|k: int|
                0 <= k < i ==> better(
                    before.is_bid,
                    #[trigger] before.levels@[k].spec_price(),
                    o.price,
                ),
            forall|k: int|
                i <= k < before.levels@.len() ==> better(
                    before.is_bid,
                    o.price,
                    #[trigger] before.levels@[k].spec_price(),
                ),
            after.is_bid == before.is_bid,
            after.total_quantity == before.total_quantity + o.remaining,
            after.levels@ == before.levels@.insert(i, after.levels@[i]),
            after.levels@[i].wf(),
            after.levels@[i].spec_price() == o.price,
            after.levels@[i]@ == seq![o],
            after.levels@[i].handles() == seq![node],
        ensures
            after.wf(),
            ({
                let k = rank(before@, before.is_bid, o.price);
                let r = OrderRef { is_bid: before.is_bid, price: o.price, node };
                &&& 0 <= k <= before@.len()
                &&& after@ == before@.insert(k, o)
                &&& after.handles() == before.handles().insert(k, r)
                &&& !before.handles().contains(r)
            }),
    {
        let r = OrderRef { is_bid: before.is_bid, price: o.price, node };
        let p = offset(before.levels(), i);
        before.lemma_shape(i);
        before.lemma_wf();
        lemma_cut(before.levels(), i);
        assert(after.levels() =~= before.levels().insert(i, seq![o]));
        assert(after.handles_of(after.levels@[i]) =~= seq![r]);
        assert(after.level_handles() =~= before.level_handles().insert(i, seq![r])) by {
            assert forall|k: int| 0 <= k < after.levels@.len() && k != i implies
                #[trigger] after.level_handles()[k] == before.level_handles().insert(
                i,
                seq![r],
            )[k] by {
                let b = if k < i {
                    k
                } else {
                    k - 1
                };
                assert(after.levels@[k] == before.levels@[b]);
                assert(after.handles_of(after.levels@[k]) =~= before.handles_of(
                    before.levels@[b],
                ));
            }
        }
        lemma_insert(before.levels(), i, seq![o]);
        lemma_insert(before.level_handles(), i, seq![r]);
        assert(after@ =~= before@.insert(p, o));
        assert(after.handles() =~= before.handles().insert(p, r));
        assert forall|j: int| 0 <= j < p implies !better(
            before.is_bid,
            o.price,
            #[trigger] before@[j].price,
        ) by {
            let at = before.lemma_place(j);
            before.lemma_level_of(j, at, i);
        }
        if p < before@.len() {
            let at = before.lemma_place(p);
            before.lemma_level_of(p, at, i);
        }
        lemma_rank(before@, before.is_bid, o.price, p);
        if before.handles().contains(r) {
            let q = before.handles().index_of(r);
            let at = before.lemma_place(q);
            assert(before.levels@[at.0].spec_price() == o.price);
        }
        assert forall|k: int| 0 <= k < after.levels@.len() implies after.level_ok(k) by {
            if k < i {
                assert(before.level_ok(k));
            } else if k > i {
                assert(before.level_ok(k - 1));
                assert(after.levels@[k] == before.levels@[k - 1]);
            }
        }
        assert forall|a: int, b: int| 0 <= a < b < after.levels@.len() implies better(
            after.is_bid,
            #[trigger] after.levels@[a].spec_price(),
            #[trigger] after.levels@[b].spec_price(),
        ) by {
            let a0 = if a < i {
                a
            } else {
                a - 1
            };
            let b0 = if b < i {
                b
            } else {
                b - 1
            };
            if a != i && b != i {
                assert(after.levels@[a] == before.levels@[a0]);
                assert(after.levels@[b] == before.levels@[b0]);
                assert(better(
                    before.is_bid,
                    before.levels@[a0].spec_price(),
                    before.levels@[b0].spec_price(),
                ));
            } else if a == i {
                assert(after.levels@[b] == before.levels@[b0]);
            } else {
                assert(after.levels@[a] == before.levels@[a0]);
            }
        }
        lemma_sum_insert(before@, p, o);
    }

    /// No level holds more than the side.
    proof fn lemma_level_total(&self, i: int)
        requires
            self.wf(),
            0 <= i < self.levels@.len(),
        ensures
            sum_remaining(self.levels@[i]@) <= sum_remaining(self@),
    {
        lemma_split(self.levels(), i);
        let head = self.levels().take(i).flatten();
        let tail = self.levels().skip(i + 1).flatten();
        lemma_sum_concat(head + self.levels@[i]@, tail);
        lemma_sum_concat(head, self.levels@[i]@);
        lemma_sum_nonnegative(head);
        lemma_sum_nonnegative(tail);
    }

    /// Places an order on this side, behind every order at a price that is
    /// better or the same, and returns its handle. The handle stays valid until
    /// the order is removed. The total of the side must stay within 64 bits.
    pub fn insert_order(&mut self, order: O) -> (r: OrderRef)
        requires
            old(self).wf(),
            sum_remaining(old(self)@) + order@.remaining <= u64::MAX,
        ensures
            final(self).wf(),
            final(self).spec_is_bid() == old(self).spec_is_bid(),
            r.spec_price() == order@.price,
            r.spec_is_bid() == old(self).spec_is_bid(),
            !old(self).handles().contains(r),
            ({
                let k = rank(old(self)@, old(self).spec_is_bid(), order@.price);
                &&& 0 <= k <= old(self)@.len()
                &&& final(self)@ == old(self)@.insert(k, order@)
                &&& final(self).handles() == old(self).handles().insert(k, r)
            }),
    {
        let price = order.price();
        let i = self.find_level(price);
        let ghost o = order@;
        self.total_quantity = self.total_quantity + order.remaining();
        if i < self.levels.len() && self.levels[i].price() == price {
            proof {
                old(self).lemma_level_total(i as int);
                assert(old(self).level_ok(i as int));
            }
            let node = self.levels[i].add_order(order);
            proof {
                Self::lemma_order_added(old(self), self, i as int, o, node);
            }
            OrderRef { is_bid: self.is_bid, price, node }
        } else {
            let mut level = Level::new(price);
            let node = level.add_order(order);
            proof {
                assert(seq![o] =~= Seq::<OrderView>::empty().push(o));
                assert(seq![node] =~= Seq::<NodeRef>::empty().push(node));
            }
            self.levels.insert(i, level);
            proof {
                Self::lemma_level_added(old(self), self, i as int, o, node);
            }
            OrderRef { is_bid: self.is_bid, price, node }
        }
    }

    /// Where a handle leads: `i` being the first level whose price is not better
    /// than the handle's, the order stands in level `i`, at the place returned.
    proof fn lemma_handle_level(&self, handle: OrderRef, i: int) -> (j: int)
        requires
            self.wf(),
            self.handles().contains(handle),
            0 <= i <= self.levels@.len(),
            forall|k: int|
                0 <= k < i ==> better(
                    self.is_bid,
                    #[trigger] self.levels@[k].spec_price(),
                    handle.price,
                ),
            forall|k: int|
                i <= k < self.levels@.len() ==> !better(
                    self.is_bid,
                    #[trigger] self.levels@[k].spec_price(),
                    handle.price,
                ),
        ensures
            i < self.levels@.len(),
            self.levels@[i].wf(),
            self.levels@[i].spec_price() == handle.price,
            0 <= j < self.levels@[i]@.len(),
            self.levels@[i].handles().contains(handle.node),
            self.levels@[i].handles().index_of(handle.node) == j,
            self.handles().index_of(handle) == offset(self.levels(), i) + j,
            0 <= offset(self.levels(), i) + j < self@.len(),
            self@[offset(self.levels(), i) + j] == self.levels@[i]@[j],
            handle.is_bid == self.is_bid,
    {
        let p = self.handles().index_of(handle);
        self.lemma_wf();
        let at = self.lemma_place(p);
        if at.0 < i {
            assert(better(self.is_bid, self.levels@[at.0].spec_price(), handle.price));
        } else if at.0 > i {
            assert(better(
                self.is_bid,
                self.levels@[i].spec_price(),
                self.levels@[at.0].spec_price(),
            ));
        }
        assert(self.level_ok(i));
        self.levels@[i].lemma_wf();
        assert(self.levels@[i].handles()[at.1] == handle.node);
        at.1
    }

    /// A side in which one order of level `i` was replaced by one at the same
    /// price.
    proof fn lemma_order_changed(before: &Self, after: &Self, i: int, j: int, o: OrderView)
        requires
            before.wf(),
            0 <= i < before.levels@.len(),
            0 <= j < before.levels@[i]@.len(),
            o.price == before.levels@[i].spec_price(),
            after.is_bid == before.is_bid,
            after.total_quantity == before.total_quantity - before.levels@[i]@[j].remaining
                + o.remaining,
            after.levels@.len() == before.levels@.len(),
            forall|k: int|
                0 <= k < before.levels@.len() && k != i ==> after.levels@[k] == before.levels@[k],
            after.levels@[i].wf(),
            after.levels@[i].spec_price() == before.levels@[i].spec_price(),
            after.levels@[i]@ == before.levels@[i]@.update(j, o),
            after.levels@[i].handles() == before.levels@[i].handles(),
        ensures
            after.wf(),
            after@ == before@.update(offset(before.levels(), i) + j, o),
            after.handles() == before.handles(),
    {
        let p = offset(before.levels(), i) + j;
        assert(before.level_ok(i));
        lemma_member(before.levels(), i, j);
        lemma_split(before.levels(), i);
        assert(after.levels() =~= before.levels().update(i, before.levels@[i]@.update(j, o)));
        assert(after.level_handles() =~= before.level_handles()) by {
            assert forall|k: int| 0 <= k < before.levels@.len() implies after.handles_of(
                after.levels@[k],
            ) == before.handles_of(before.levels@[k]) by {
                assert(after.handles_of(after.levels@[k]) =~= before.handles_of(
                    before.levels@[k],
                ));
            }
        }
        lemma_update(before.levels(), i, before.levels@[i]@.update(j, o));
        assert(after@ =~= before@.update(p, o));
        assert forall|k: int| 0 <= k < after.levels@.len() implies after.level_ok(k) by {
            assert(before.level_ok(k));
        }
        assert forall|a: int, b: int| 0 <= a < b < after.levels@.len() implies better(
            after.is_bid,
            #[trigger] after.levels@[a].spec_price(),
            #[trigger] after.levels@[b].spec_price(),
        ) by {
            assert(better(
                before.is_bid,
                before.levels@[a].spec_price(),
                before.levels@[b].spec_price(),
            ));
        }
        lemma_sum_update(before@, p, o);
    }

    /// A side in which level `i` lost one order, and not its only one.
    proof fn lemma_order_removed(before: &Self, after: &Self, i: int, j: int)
        requires
            before.wf(),
            0 <= i < before.levels@.len(),
            0 <= j < before.levels@[i]@.len(),
            before.levels@[i]@.len() > 1,
            after.is_bid == before.is_bid,
            after.total_quantity == before.total_quantity - before.levels@[i]@[j].remaining,
            after.levels@.len() == before.levels@.len(),
            forall|k: int|
                0 <= k < before.levels@.len() && k != i ==> after.levels@[k] == before.levels@[k],
            after.levels@[i].wf(),
            after.levels@[i].spec_price() == before.levels@[i].spec_price(),
            after.levels@[i]@ == before.levels@[i]@.remove(j),
            after.levels@[i].handles() == before.levels@[i].handles().remove(j),
        ensures
            after.wf(),
            after@ == before@.remove(offset(before.levels(), i) + j),
            after.handles() == before.handles().remove(offset(before.levels(), i) + j),
    {
        let p = offset(before.levels(), i) + j;
        assert(before.level_ok(i));
        before.levels@[i].lemma_wf();
        before.lemma_shape(i);
        lemma_member(before.levels(), i, j);
        lemma_split(before.levels(), i);
        lemma_split(before.level_handles(), i);
        assert(after.levels() =~= before.levels().update(i, before.levels@[i]@.remove(j)));
        assert(after.handles_of(after.levels@[i]) =~= before.handles_of(
            before.levels@[i],
        ).remove(j));
        assert(after.level_handles() =~= before.level_handles().update(
            i,
            before.handles_of(before.levels@[i]).remove(j),
        )) by {
            assert forall|k: int| 0 <= k < before.levels@.len() && k != i implies after.handles_of(
                after.levels@[k],
            ) == before.handles_of(before.levels@[k]) by {
                assert(after.handles_of(after.levels@[k]) =~= before.handles_of(
                    before.levels@[k],
                ));
            }
        }
        lemma_update(before.levels(), i, before.levels@[i]@.remove(j));
        lemma_update(before.level_handles(), i, before.handles_of(before.levels@[i]).remove(j));
        assert(after@ =~= before@.remove(p));
        assert(after.handles() =~= before.handles().remove(p));
        assert forall|k: int| 0 <= k < after.levels@.len() implies after.level_ok(k) by {
            assert(before.level_ok(k));
            if k == i {
                assert forall|m: int| 0 <= m < after.levels@[i]@.len() implies (
                #[trigger] after.levels@[i]@[m]).price == after.levels@[i].spec_price() by {
                    let m0 = if m < j {
                        m
                    } else {
                        m + 1
                    };
                    assert(after.levels@[i]@[m] == before.levels@[i]@[m0]);
                }
            }
        }
        assert forall|a: int, b: int| 0 <= a < b < after.levels@.len() implies better(
            after.is_bid,
            #[trigger] after.levels@[a].spec_price(),
            #[trigger] after.levels@[b].spec_price(),
        ) by {
            assert(better(
                before.is_bid,
                before.levels@[a].spec_price(),
                before.levels@[b].spec_price(),
            ));
        }
        lemma_sum_remove(before@, p);
    }

    /// A side that lost level `i`, which held one order.
    proof fn lemma_level_removed(before: &Self, after: &Self, i: int)
        requires
            before.wf(),
            0 <= i < before.levels@.len(),
            before.levels@[i]@.len() == 1,
            after.is_bid == before.is_bid,
            after.total_quantity == before.total_quantity - before.levels@[i]@[0].remaining,
            after.levels@ == before.levels@.remove(i),
        ensures
            after.wf(),
            after@ == before@.remove(offset(before.levels(), i)),
            after.handles() == before.handles().remove(offset(before.levels(), i)),
    {
        let p = offset(before.levels(), i);
        assert(before.level_ok(i));
        before.levels@[i].lemma_wf();
        before.lemma_shape(i);
        lemma_member(before.levels(), i, 0);
        assert(after.levels() =~= before.levels().remove(i));
        assert(after.level_handles() =~= before.level_handles().remove(i)) by {
            assert forall|k: int| 0 <= k < after.levels@.len() implies
                #[trigger] after.level_handles()[k] == before.level_handles().remove(i)[k] by {
                let b = if k < i {
                    k
                } else {
                    k + 1
                };
                assert(after.levels@[k] == before.levels@[b]);
                assert(after.handles_of(after.levels@[k]) =~= before.handles_of(
                    before.levels@[b],
                ));
            }
        }
        lemma_remove(before.levels(), i);
        lemma_remove(before.level_handles(), i);
        assert(after@ =~= before@.remove(p));
        assert(after.handles() =~= before.handles().remove(p));
        assert forall|k: int| 0 <= k < after.levels@.len() implies after.level_ok(k) by {
            let b = if k < i {
                k
            } else {
                k + 1
            };
            assert(after.levels@[k] == before.levels@[b]);
            assert(before.level_ok(b));
        }
        assert forall|a: int, b: int| 0 <= a < b < after.levels@.len() implies better(
            after.is_bid,
            #[trigger] after.levels@[a].spec_price(),
            #[trigger] after.levels@[b].spec_price(),
        ) by {
            let a0 = if a < i {
                a
            } else {
                a + 1
            };
            let b0 = if b < i {
                b
            } else {
                b + 1
            };
            assert(after.levels@[a] == before.levels@[a0]);
            assert(after.levels@[b] == before.levels@[b0]);
            assert(better(
                before.is_bid,
                before.levels@[a0].spec_price(),
                before.levels@[b0].spec_price(),
            ));
        }
        lemma_sum_remove(before@, p);
    }

    /// The order that `handle` names.
    pub fn get(&self, handle: OrderRef) -> (r: &O)
        requires
            self.wf(),
            self.handles().contains(handle),
        ensures
            r@ == self.order_at(handle),
    {
        let i = self.find_level(handle.price);
        proof {
            self.lemma_handle_level(handle, i as int);
        }
        self.levels[i].get(handle.node)
    }

    /// Fills `fill` of the order that `handle` names. If nothing remains of the
    /// order, it is removed from the side, together with its level if that is
    /// then empty, and the result is `true`.
    pub fn fill_order(&mut self, handle: OrderRef, fill: u64) -> (r: bool)
        requires
            old(self).wf(),
            old(self).handles().contains(handle),
            fill <= old(self).order_at(handle).remaining,
        ensures
            final(self).wf(),
            final(self).spec_is_bid() == old(self).spec_is_bid(),
            ({
                let k = old(self).handles().index_of(handle);
                let filled = old(self)@[k].filled(fill);
                &&& r == (filled.remaining == 0)
                &&& r ==> {
                    &&& final(self)@ == old(self)@.remove(k)
                    &&& final(self).handles() == old(self).handles().remove(k)
                }
                &&& !r ==> final(self)@ == old(self)@.update(k, filled) && final(self).handles()
                    == old(self).handles()
            }),
    {
        let i = self.find_level(handle.price);
        let ghost j = self.lemma_handle_level(handle, i as int);
        proof {
            self.lemma_wf();
            crate::level::lemma_sum_bounds(self@, offset(self.levels(), i as int) + j);
            assert(self.level_ok(i as int));
        }
        let removed = self.levels[i].fill_order(handle.node, fill);
        self.total_quantity = self.total_quantity - fill;
        if !removed {
            proof {
                Self::lemma_order_changed(
                    old(self),
                    self,
                    i as int,
                    j,
                    old(self).levels@[i as int]@[j].filled(fill),
                );
            }
        } else if self.levels[i].is_empty() {
            assert(old(self).levels@[i as int]@.len() == 1);
            self.levels.remove(i);
            proof {
                assert(self.levels@ =~= old(self).levels@.remove(i as int));
                Self::lemma_level_removed(old(self), self, i as int);
            }
        } else {
            proof {
                Self::lemma_order_removed(old(self), self, i as int, j);
            }
        }
        removed
    }

    /// Removes the order that `handle` names from the side, together with its
    /// level if that is then empty.
    pub fn remove_order(&mut self, handle: OrderRef)
        requires
            old(self).wf(),
            old(self).handles().contains(handle),
        ensures
            final(self).wf(),
            final(self).spec_is_bid() == old(self).spec_is_bid(),
            final(self)@ == old(self)@.remove(old(self).handles().index_of(handle)),
            final(self).handles() == old(self).handles().remove(
                old(self).handles().index_of(handle),
            ),
    {
        let i = self.find_level(handle.price);
        let ghost j = self.lemma_handle_level(handle, i as int);
        proof {
            self.lemma_wf();
            crate::level::lemma_sum_bounds(self@, offset(self.levels(), i as int) + j);
            assert(self.level_ok(i as int));
            self.levels@[i as int].lemma_wf();
        }
        let left = self.levels[i].get(handle.node).remaining();
        self.levels[i].remove_order(handle.node);
        self.total_quantity = self.total_quantity - left;
        if self.levels[i].is_empty() {
            assert(old(self).levels@[i as int]@.len() == 1);
            self.levels.remove(i);
            proof {
                assert(self.levels@ =~= old(self).levels@.remove(i as int));
                Self::lemma_level_removed(old(self), self, i as int);
            }
        } else {
            proof {
                Self::lemma_order_removed(old(self), self, i as int, j);
            }
        }
    }

    /// A traversal of the orders in price-time priority: level by level from
    /// the best price on, and within a level oldest first.
    pub fn iter(&self) -> (r: OrderIter<'_, O>)
        requires
            self.wf(),
        ensures
            r.wf(),
            r.side() == self,
            r.remaining() == self@,
    {
        let node = if self.levels.len() > 0 {
            proof {
                assert(self.level_ok(0));
                self.levels@[0].lemma_wf();
            }
            self.levels[0].head()
        } else {
            NodeRef::null()
        };
        let r = OrderIter { side: self, level: 0, node, pos: Ghost(0) };
        proof {
            assert(self.levels().take(0) =~= Seq::<Seq<OrderView>>::empty());
            if self.levels@.len() > 0 {
                self.levels@[0].lemma_wf();
            } else {
                assert(self.levels() =~= Seq::<Seq<OrderView>>::empty());
            }
            assert(r.remaining() =~= self@);
        }
        r
    }

    /// The order at place `j` of level `i`, to be changed in place.
    fn order_mut(&mut self, i: usize, node: NodeRef, Ghost(j): Ghost<int>) -> (r: &mut O)
        requires
            old(self).linked(),
            i < old(self).levels@.len(),
            0 <= j < old(self).levels@[i as int]@.len(),
            old(self).levels@[i as int].handles()[j] == node,
        ensures
            r@ == old(self).levels@[i as int]@[j],
            final(self).is_bid == old(self).is_bid,
            final(self).total_quantity == old(self).total_quantity,
            final(self).levels@.len() == old(self).levels@.len(),
            forall|k: int|
                0 <= k < old(self).levels@.len() && k != i ==> final(self).levels@[k] == old(self).levels@[k],
            final(self).levels@[i as int].linked(),
            final(self).levels@[i as int].same_frame(&old(self).levels@[i as int]),
            final(self).levels@[i as int]@ == old(self).levels@[i as int]@.update(
                j,
                (*final(r))@,
            ),
    {
        proof {
            self.levels@[i as int].lemma_linked();
        }
        self.levels[i].get_mut(node)
    }

    /// A side in which one order was changed in place.
    proof fn lemma_changed_in_place(before: &Self, after: &Self, i: int, j: int, o: OrderView)
        requires
            before.linked(),
            0 <= i < before.levels@.len(),
            0 <= j < before.levels@[i]@.len(),
            after.is_bid == before.is_bid,
            after.total_quantity == before.total_quantity,
            after.levels@.len() == before.levels@.len(),
            forall|k: int|
                0 <= k < before.levels@.len() && k != i ==> after.levels@[k] == before.levels@[k],
            after.levels@[i].linked(),
            after.levels@[i].same_frame(&before.levels@[i]),
            after.levels@[i]@ == before.levels@[i]@.update(j, o),
        ensures
            after.linked(),
            after.same_frame(before),
            after@ == before@.update(offset(before.levels(), i) + j, o),
            0 <= offset(before.levels(), i) + j < before@.len(),
            before@[offset(before.levels(), i) + j] == before.levels@[i]@[j],
            after.handles() == before.handles(),
    {
        let p = offset(before.levels(), i) + j;
        lemma_member(before.levels(), i, j);
        lemma_split(before.levels(), i);
        assert(after.levels() =~= before.levels().update(i, before.levels@[i]@.update(j, o)));
        lemma_update(before.levels(), i, before.levels@[i]@.update(j, o));
        assert(after@ =~= before@.update(p, o));
        assert forall|k: int| 0 <= k < after.levels@.len() implies (
        #[trigger] after.levels@[k]).linked() && after.levels@[k]@.len() > 0
            && after.levels@[k].same_frame(&before.levels@[k]) by {
            assert(before.levels@[k].linked());
            if k != i {
                assert(after.levels@[k] == before.levels@[k]);
                Level::lemma_frames(&before.levels@[k], &before.levels@[k], &before.levels@[k]);
            }
        }
        after.lemma_same_frame(before, 0);
    }

    /// A traversal of the orders in price-time priority that lets each order be
    /// changed in place. The side keeps its levels and its cached totals: it is
    /// well formed afterwards only if each order has the same price as before,
    /// and the same remains of it.
    pub fn iter_mut(&mut self) -> (r: OrderIterMut<'_, O>)
        requires
            old(self).wf(),
        ensures
            r.wf(),
            *r.side == *old(self),
            r.pos@ == 0,
            *final(r.side) == *final(self),
    {
        let node = if self.levels.len() > 0 {
            proof {
                assert(self.level_ok(0));
                self.levels@[0].lemma_wf();
            }
            self.levels[0].head()
        } else {
            NodeRef::null()
        };
        proof {
            self.lemma_linked();
            assert(self.levels().take(0) =~= Seq::<Seq<OrderView>>::empty());
            if self.levels@.len() > 0 {
                self.levels@[0].lemma_wf();
            } else {
                assert(self.levels() =~= Seq::<Seq<OrderView>>::empty());
            }
        }
        OrderIterMut { side: self, level: 0, node, pos: Ghost(0) }
    }
}

/// A traversal of the orders of a side in price-time priority.
pub struct OrderIter<'a, O: OrderInterface> {
    side: &'a Side<O>,
    level: usize,
    node: NodeRef,
    pos: Ghost<int>,
}

impl<'a, O: OrderInterface> OrderIter<'a, O> {
    /// The side that is traversed.
    pub closed spec fn side(&self) -> &'a Side<O> {
        self.side
    }

    /// The orders still to come, next first.
    pub closed spec fn remaining(&self) -> Seq<OrderView> {
        self.side@.skip(self.pos@)
    }

    /// The invariant of the traversal.
    pub closed spec fn wf(&self) -> bool {
        &&& self.side.wf()
        &&& self.level <= self.side.levels@.len()
        &&& 0 <= self.pos@ <= self.side@.len()
        &&& if self.level < self.side.levels@.len() {
            let l = self.side.levels@[self.level as int];
            &&& l.handles().contains(self.node)
            &&& self.pos@ == offset(self.side.levels(), self.level as int) + l.handles().index_of(
                self.node,
            )
        } else {
            self.pos@ == self.side@.len()
        }
    }

    /// The next order, or `None` when the traversal has reached the end.
    pub fn next(&mut self) -> (r: Option<&'a O>)
        requires
            old(self).wf(),
        ensures
            final(self).wf(),
            final(self).side() == old(self).side(),
            old(self).remaining().len() == 0 ==> {
                &&& r is None
                &&& final(self).remaining() == old(self).remaining()
            },
            old(self).remaining().len() > 0 ==> r is Some && r->0@ == old(self).remaining()[0]
                && final(self).remaining() == old(self).remaining().drop_first(),
    {
        let side = self.side;
        if self.level >= side.levels.len() {
            return None;
        }
        let level = &side.levels[self.level];
        let ghost i = self.level as int;
        let ghost j = level.handles().index_of(self.node);
        proof {
            assert(side.level_ok(i));
            level.lemma_wf();
            lemma_member(side.levels(), i, j);
            lemma_split(side.levels(), i);
            lemma_cut(side.levels(), i + 1);
        }
        let order = level.get(self.node);
        let after = level.next(self.node);
        if after.is_null() {
            self.level = self.level + 1;
            if self.level < side.levels.len() {
                proof {
                    assert(side.level_ok(i + 1));
                    side.levels@[i + 1].lemma_wf();
                }
                self.node = side.levels[self.level].head();
            } else {
                self.node = after;
                proof {
                    assert(side.levels().take(i + 1) =~= side.levels());
                }
            }
        } else {
            self.node = after;
        }
        self.pos = Ghost(self.pos@ + 1);
        assert(self.remaining() =~= old(self).remaining().drop_first());
        Some(order)
    }
}

/// A traversal of the orders of a side in price-time priority that lets each
/// order be changed in place.
pub struct OrderIterMut<'a, O: OrderInterface> {
    /// The side that is traversed.
    pub side: &'a mut Side<O>,
    /// The level of the order that comes next, counted from the best price.
    pub level: usize,
    /// The handle, in its level, of the order that comes next.
    pub node: NodeRef,
    /// How many orders have been passed.
    pub pos: Ghost<int>,
}

impl<'a, O: OrderInterface> OrderIterMut<'a, O> {
    /// The orders still to come, next first.
    pub open spec fn remaining(&self) -> Seq<OrderView> {
        self.side@.skip(self.pos@)
    }

    /// Whether the side is linked, and the orders that have been passed are
    /// orders of the side.
    pub open spec fn within(&self) -> bool {
        self.side.linked() && 0 <= self.pos@ <= self.side@.len()
    }

    /// What the invariant gives.
    pub proof fn lemma_wf(&self)
        requires
            self.wf(),
        ensures
            self.within(),
    {
    }

    /// The invariant of the traversal.
    pub closed spec fn wf(&self) -> bool {
        &&& self.side.linked()
        &&& self.level <= self.side.levels@.len()
        &&& 0 <= self.pos@ <= self.side@.len()
        &&& if self.level < self.side.levels@.len() {
            let l = self.side.levels@[self.level as int];
            &&& l.handles().contains(self.node)
            &&& self.pos@ == offset(self.side.levels(), self.level as int) + l.handles().index_of(
                self.node,
            )
        } else {
            self.pos@ == self.side@.len()
        }
    }

    /// The next order, or `None` when the traversal has reached the end.
    pub fn next(&mut self) -> (r: Option<&mut O>)
        requires
            old(self).wf(),
        ensures
            final(self).wf(),
            *final(final(self).side) == *final(old(self).side),
            final(self).side.same_frame(old(self).side),
            final(self).side.handles() == old(self).side.handles(),
            old(self).remaining().len() == 0 ==> r is None && *final(self).side == *old(self).side
                && final(self).pos@ == old(self).pos@,
            old(self).remaining().len() > 0 ==> {
                &&& r is Some
                &&& r->0@ == old(self).side@[old(self).pos@]
                &&& final(self).pos@ == old(self).pos@ + 1
                &&& final(self).side@ == old(self).side@.update(old(self).pos@, (*final(r->0))@)
            },
    {
        if self.level >= self.side.levels.len() {
            proof {
                Side::lemma_frames(self.side, self.side, self.side);
            }
            return None;
        }
        let ghost after = *final(self);
        let ghost i = self.level as int;
        let ghost j = self.side.levels@[i].handles().index_of(self.node);
        let ghost p = self.pos@;
        let level = self.level;
        let node = self.node;
        proof {
            assert(self.side.levels@[i].linked());
            self.side.levels@[i].lemma_linked();
            lemma_member(self.side.levels(), i, j);
            lemma_split(self.side.levels(), i);
            lemma_cut(self.side.levels(), i + 1);
        }
        let following = self.side.levels[level].next(node);
        if following.is_null() {
            self.level = level + 1;
            if self.level < self.side.levels.len() {
                proof {
                    assert(self.side.levels@[i + 1].linked());
                    self.side.levels@[i + 1].lemma_linked();
                }
                self.node = self.side.levels[self.level].head();
            } else {
                self.node = following;
                proof {
                    assert(self.side.levels().take(i + 1) =~= self.side.levels());
                }
            }
        } else {
            self.node = following;
        }
        self.pos = Ghost(p + 1);
        let ghost reached = self.level as int;
        let r = self.side.order_mut(level, node, Ghost(j));
        proof {
            Side::lemma_changed_in_place(old(self).side, after.side, i, j, (*final(r))@);
            after.side.lemma_same_frame(old(self).side, reached);
            if reached < old(self).side.levels@.len() {
                after.side.levels@[reached].lemma_frame(&old(self).side.levels@[reached]);
            }
        }
        Some(r)
    }
}

} // verus!
