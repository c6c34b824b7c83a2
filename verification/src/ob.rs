//! The order book: two sides, an index from the identifier of each resting
//! order to its handle, and the shadow.
//!
//! The book works in two phases. `eval` decides what a batch of operations
//! does to the book and returns the decisions as a list of instructions; it
//! moves no resting order, and records in the shadow what it has promised of
//! each maker, so that no maker is promised twice. `apply` carries a list of
//! instructions out and empties the shadow.

use crate::model::{
    crosses,
    distinct_ids,
    fill_instructions,
    has_id,
    id_index,
    run_match,
    BookView,
    InstructionView,
    MatchView,
    Matching,
    Msg,
    OperationView,
};
use crate::order::{OrderInterface, OrderView};
use crate::side::{rank, OrderRef, Side};
use vstd::hash_map::StringHashMap;
use vstd::prelude::*;

verus! {

/// A request to the book.
#[derive(Debug, PartialEq, Eq)]
pub enum Operation<O> {
    /// Place an order, after matching it against the other side.
    Insert(O),
    /// Take the order with this identifier out of the book.
    Cancel(String),
}

/// A change to the book that an evaluation has decided on.
#[derive(Debug, PartialEq, Eq)]
pub enum Instruction<O> {
    /// Place the order on its side with this much of it remaining.
    Insert(O, u64),
    /// Fill this much of the resting order with this identifier, and remove the
    /// order if nothing remains of it.
    Fill(String, u64),
    /// Remove the resting order with this identifier.
    Delete(String),
    /// Nothing: the operation was rejected.
    NoOp(Msg),
}

/// What one incoming order took: the total, and the part of each maker, best
/// priority first.
#[derive(Debug, PartialEq, Eq)]
pub struct Match {
    pub taker: (String, u64),
    pub makers: Vec<(String, u64)>,
}

impl<O: OrderInterface> View for Operation<O> {
    type V = OperationView;

    open spec fn view(&self) -> OperationView {
        match self {
            Operation::Insert(o) => OperationView::Insert(o@),
            Operation::Cancel(id) => OperationView::Cancel(id@),
        }
    }
}

impl<O: OrderInterface> View for Instruction<O> {
    type V = InstructionView;

    open spec fn view(&self) -> InstructionView {
        match self {
            Instruction::Insert(o, remaining) => InstructionView::Insert(o@, *remaining),
            Instruction::Fill(id, quantity) => InstructionView::Fill(id@, *quantity),
            Instruction::Delete(id) => InstructionView::Delete(id@),
            Instruction::NoOp(msg) => InstructionView::NoOp(*msg),
        }
    }
}

/// The views of some fills.
pub open spec fn fill_views(fills: Seq<(String, u64)>) -> Seq<(Seq<char>, u64)> {
    Seq::new(fills.len(), |k: int| (fills[k].0@, fills[k].1))
}

impl View for Match {
    type V = MatchView;

    open spec fn view(&self) -> MatchView {
        MatchView { taker: (self.taker.0@, self.taker.1), makers: fill_views(self.makers@) }
    }
}

/// The views of some operations.
pub open spec fn operation_views<O: OrderInterface>(operations: Seq<Operation<O>>) -> Seq<
    OperationView,
> {
    Seq::new(operations.len(), |k: int| operations[k]@)
}

/// The views of some instructions.
pub open spec fn instruction_views<O: OrderInterface>(instructions: Seq<Instruction<O>>) -> Seq<
    InstructionView,
> {
    Seq::new(instructions.len(), |k: int| instructions[k]@)
}

/// The views of some matches.
pub open spec fn match_views(matches: Seq<Match>) -> Seq<MatchView> {
    Seq::new(matches.len(), |k: int| matches[k]@)
}

/// The view of a match that may be absent.
pub open spec fn match_view(matched: Option<Match>) -> Option<MatchView> {
    match matched {
        Some(m) => Some(m@),
        None => None,
    }
}

/// A limit order book.
pub struct OrderBook<O: OrderInterface> {
    bids: Side<O>,
    asks: Side<O>,
    orders: StringHashMap<OrderRef>,
    shadow: StringHashMap<u64>,
}

impl<O: OrderInterface> View for OrderBook<O> {
    type V = BookView;

    closed spec fn view(&self) -> BookView {
        BookView { bids: self.bids@, asks: self.asks@, shadow: self.shadow@ }
    }
}

impl<O: OrderInterface> OrderBook<O> {
    /// The index: the handle of each resting order, by its identifier.
    pub closed spec fn index(&self) -> Map<Seq<char>, OrderRef> {
        self.orders@
    }

    /// The bid side.
    pub closed spec fn spec_bids(&self) -> &Side<O> {
        &self.bids
    }

    /// The ask side.
    pub closed spec fn spec_asks(&self) -> &Side<O> {
        &self.asks
    }

    /// Whether every order of a side may rest there and has its handle in the
    /// index.
    spec fn indexed(index: Map<Seq<char>, OrderRef>, side: &Side<O>) -> bool {
        forall|k: int|
            0 <= k < side@.len() ==> {
                &&& index.contains_key((#[trigger] side@[k]).id)
                &&& index[side@[k].id] == side.handles()[k]
                &&& side@[k].is_buy == side.spec_is_bid()
                &&& side@[k].can_rest()
            }
    }

    /// The invariant of the book: both sides are well formed; buy orders rest on
    /// the bid side and sell orders on the ask side; of every resting order part
    /// is unfilled, and not more than the whole; and the index holds the
    /// identifiers of the resting orders and no others, each with the handle of
    /// its order.
    pub closed spec fn wf(&self) -> bool {
        &&& self.bids.wf()
        &&& self.asks.wf()
        &&& self.bids.spec_is_bid()
        &&& !self.asks.spec_is_bid()
        &&& Self::indexed(self.orders@, &self.bids)
        &&& Self::indexed(self.orders@, &self.asks)
        &&& forall|id: Seq<char>| #[trigger]
            self.orders@.contains_key(id) ==> has_id(self.bids@, id) || has_id(self.asks@, id)
    }

    /// What the index says of an identifier: it is in the index exactly if an
    /// order with that identifier rests in the book, and then the handle in the
    /// index names that order, on the side that the handle names.
    proof fn lemma_lookup(&self, id: Seq<char>)
        requires
            self.wf(),
        ensures
            self.orders@.contains_key(id) <==> self@.rests(id),
            !(has_id(self.bids@, id) && has_id(self.asks@, id)),
            has_id(self.bids@, id) ==> {
                &&& self.orders@[id].spec_is_bid()
                &&& self.bids.handles().contains(self.orders@[id])
                &&& self.bids.handles().index_of(self.orders@[id]) == id_index(self.bids@, id)
                &&& 0 <= id_index(self.bids@, id) < self.bids@.len()
                &&& self.bids@[id_index(self.bids@, id)].id == id
            },
            has_id(self.asks@, id) ==> {
                &&& !self.orders@[id].spec_is_bid()
                &&& self.asks.handles().contains(self.orders@[id])
                &&& self.asks.handles().index_of(self.orders@[id]) == id_index(self.asks@, id)
                &&& 0 <= id_index(self.asks@, id) < self.asks@.len()
                &&& self.asks@[id_index(self.asks@, id)].id == id
            },
    {
        self.bids.lemma_wf();
        self.asks.lemma_wf();
        if has_id(self.bids@, id) {
            let k = id_index(self.bids@, id);
            assert(self.bids.handles()[k] == self.orders@[id]);
        }
        if has_id(self.asks@, id) {
            let k = id_index(self.asks@, id);
            assert(self.asks.handles()[k] == self.orders@[id]);
        }
    }

    /// No two resting orders share an identifier.
    proof fn lemma_distinct(&self)
        requires
            self.wf(),
        ensures
            distinct_ids(self.bids@),
            distinct_ids(self.asks@),
            forall|a: int, b: int|
                0 <= a < self.bids@.len() && 0 <= b < self.asks@.len() ==> (
                #[trigger] self.bids@[a]).id != (#[trigger] self.asks@[b]).id,
            forall|k: int|
                0 <= k < self.bids@.len() ==> id_index(self.bids@, (#[trigger] self.bids@[k]).id)
                    == k,
            forall|k: int|
                0 <= k < self.asks@.len() ==> id_index(self.asks@, (#[trigger] self.asks@[k]).id)
                    == k,
    {
        self.bids.lemma_wf();
        self.asks.lemma_wf();
        assert forall|a: int, b: int|
            0 <= a < self.bids@.len() && 0 <= b < self.bids@.len() && a != b implies (
        #[trigger] self.bids@[a]).id != (#[trigger] self.bids@[b]).id by {
            assert(self.bids.handles()[a] != self.bids.handles()[b]);
        }
        assert forall|a: int, b: int|
            0 <= a < self.asks@.len() && 0 <= b < self.asks@.len() && a != b implies (
        #[trigger] self.asks@[a]).id != (#[trigger] self.asks@[b]).id by {
            assert(self.asks.handles()[a] != self.asks.handles()[b]);
        }
        assert forall|a: int, b: int|
            0 <= a < self.bids@.len() && 0 <= b < self.asks@.len() implies (
        #[trigger] self.bids@[a]).id != (#[trigger] self.asks@[b]).id by {
            assert(self.bids.handles()[a].spec_is_bid());
            assert(!self.asks.handles()[b].spec_is_bid());
        }
        assert forall|k: int| 0 <= k < self.bids@.len() implies id_index(
            self.bids@,
            (#[trigger] self.bids@[k]).id,
        ) == k by {
            assert(has_id(self.bids@, self.bids@[k].id));
        }
        assert forall|k: int| 0 <= k < self.asks@.len() implies id_index(
            self.asks@,
            (#[trigger] self.asks@[k]).id,
        ) == k by {
            assert(has_id(self.asks@, self.asks@[k].id));
        }
    }

    /// The index and the resting orders agree: an identifier is in the index
    /// exactly if an order with that identifier rests in the book; no two
    /// resting orders share an identifier, on one side or across the sides; and
    /// the handle that the index holds for an order is the handle of that order
    /// on its side.
    pub proof fn lemma_index_bijection(&self)
        requires
            self.wf(),
        ensures
            self@.bids == self.spec_bids()@,
            self@.asks == self.spec_asks()@,
            forall|id: Seq<char>| #[trigger] self.index().contains_key(id) <==> self@.rests(id),
            distinct_ids(self@.bids),
            distinct_ids(self@.asks),
            forall|a: int, b: int|
                0 <= a < self@.bids.len() && 0 <= b < self@.asks.len() ==> (
                #[trigger] self@.bids[a]).id != (#[trigger] self@.asks[b]).id,
            self.spec_bids().handles().len() == self@.bids.len(),
            self.spec_asks().handles().len() == self@.asks.len(),
            forall|k: int|
                0 <= k < self@.bids.len() ==> self.index()[(#[trigger] self@.bids[k]).id]
                    == self.spec_bids().handles()[k],
            forall|k: int|
                0 <= k < self@.asks.len() ==> self.index()[(#[trigger] self@.asks[k]).id]
                    == self.spec_asks().handles()[k],
    {
        self.lemma_distinct();
        self.bids.lemma_wf();
        self.asks.lemma_wf();
        assert forall|id: Seq<char>| #[trigger]
            self.index().contains_key(id) <==> self@.rests(id) by {
            self.lemma_lookup(id);
        }
    }

    /// What holds of the book whenever it is well formed: its two sides are
    /// well formed, the bid side for bids and the ask side for asks; buy orders
    /// rest on the bid side and sell orders on the ask side; of every resting
    /// order part is unfilled, and not more than the whole; the orders of each
    /// side stand in price-time priority; and the total of each side is within
    /// 64 bits.
    pub proof fn lemma_invariants(&self)
        requires
            self.wf(),
        ensures
            self.spec_bids().wf(),
            self.spec_asks().wf(),
            self.spec_bids().spec_is_bid(),
            !self.spec_asks().spec_is_bid(),
            self@.bids == self.spec_bids()@,
            self@.asks == self.spec_asks()@,
            self@.ok(),
    {
        self.lemma_distinct();
        self.bids.lemma_wf();
        self.asks.lemma_wf();
    }

    /// An empty book.
    pub fn new() -> (r: Self)
        ensures
            r.wf(),
            r@ == (BookView { bids: Seq::empty(), asks: Seq::empty(), shadow: Map::empty() }),
    {
        OrderBook {
            bids: Side::new(true),
            asks: Side::new(false),
            orders: StringHashMap::new(),
            shadow: StringHashMap::new(),
        }
    }

    /// The bid side.
    #[verifier::when_used_as_spec(spec_bids)]
    pub fn bids(&self) -> (r: &Side<O>)
        ensures
            r == self.spec_bids(),
    {
        &self.bids
    }

    /// The ask side.
    #[verifier::when_used_as_spec(spec_asks)]
    pub fn asks(&self) -> (r: &Side<O>)
        ensures
            r == self.spec_asks(),
    {
        &self.asks
    }

    /// Whether an order with this identifier rests in the book.
    pub fn contains(&self, id: &str) -> (r: bool)
        requires
            self.wf(),
        ensures
            r == self@.rests(id@),
    {
        proof {
            self.lemma_lookup(id@);
        }
        self.orders.contains_key(id)
    }

    /// The staged remaining quantity of an order, if it has one.
    pub fn shadow(&self, id: &str) -> (r: Option<u64>)
        ensures
            r == (if self@.shadow.contains_key(id@) {
                Some(self@.shadow[id@])
            } else {
                None
            }),
    {
        match self.shadow.get(id) {
            Some(quantity) => Some(*quantity),
            None => None,
        }
    }

    /// Whether nothing is staged.
    pub fn shadow_is_empty(&self) -> (r: bool)
        ensures
            r == (self@.shadow == Map::<Seq<char>, u64>::empty()),
    {
        let r = self.shadow.is_empty();
        proof {
            if r {
                assert(self.shadow@ =~= Map::<Seq<char>, u64>::empty());
            }
        }
        r
    }

    /// Whether an incoming order with this limit may trade with a resting
    /// order at price `resting`.
    fn crossing(is_buy: bool, limit: u64, resting: u64) -> (r: bool)
        ensures
            r == crosses(is_buy, limit, resting),
    {
        if is_buy {
            limit >= resting
        } else {
            limit <= resting
        }
    }

    /// Evaluates the insertion of an order that is matched up to the price
    /// `limit`.
    ///
    /// This is `eval_insert` for an order whose limit is not its own price: the
    /// order is matched as far as `limit` reaches, and what remains of it is to
    /// rest at its own price.
    pub fn eval_insert_at(&mut self, order: O, limit: u64) -> (r: (
        Option<Match>,
        Vec<Instruction<O>>,
    ))
        requires
            old(self).wf(),
        ensures
            final(self).wf(),
            match_view(r.0) == old(self)@.eval_insert_at(order@, limit).matched,
            instruction_views(r.1@) == old(self)@.eval_insert_at(order@, limit).instructions,
            final(self)@ == old(self)@.eval_insert_at(order@, limit).book,
            final(self).spec_bids() == old(self).spec_bids(),
            final(self).spec_asks() == old(self).spec_asks(),
            final(self).index() == old(self).index(),
    {
        let id = order.id().clone();
        proof {
            self.lemma_lookup(id@);
        }
        if self.orders.contains_key(id.as_str()) || self.shadow.contains_key(id.as_str()) {
            let mut rejected: Vec<Instruction<O>> = Vec::new();
            rejected.push(Instruction::NoOp(Msg::OrderAlreadyExists));
            assert(instruction_views(rejected@) =~= seq![
                InstructionView::NoOp(Msg::OrderAlreadyExists),
            ]);
            return (None, rejected);
        }
        let is_buy = order.is_buy();
        let left = order.remaining();
        let mut remaining = left;
        let mut makers: Vec<(String, u64)> = Vec::new();
        let mut fills: Vec<Instruction<O>> = Vec::new();
        let mut it = if is_buy {
            self.asks.iter()
        } else {
            self.bids.iter()
        };
        let ghost resting = it.remaining();
        let ghost start = Matching {
            remaining: left,
            fills: Seq::empty(),
            shadow: old(self).shadow@,
        };
        let mut done = false;
        assert(fill_views(makers@) =~= Seq::empty());
        assert(instruction_views(fills@) =~= fill_instructions(fill_views(makers@)));
        while !done
            invariant
                it.wf(),
                remaining <= left,
                instruction_views(fills@) == fill_instructions(fill_views(makers@)),
                self.bids == old(self).bids,
                self.asks == old(self).asks,
                self.orders == old(self).orders,
                !done ==> run_match(resting, start, is_buy, limit) == run_match(
                    it.remaining(),
                    Matching { remaining, fills: fill_views(makers@), shadow: self.shadow@ },
                    is_buy,
                    limit,
                ),
                done ==> run_match(resting, start, is_buy, limit) == (Matching {
                    remaining,
                    fills: fill_views(makers@),
                    shadow: self.shadow@,
                }),
            decreases
                    (if done {
                        0
                    } else {
                        1 + it.remaining().len()
                    }),
        {
            let ghost state = Matching {
                remaining,
                fills: fill_views(makers@),
                shadow: self.shadow@,
            };
            let ghost fills_before = fills@;
            match it.next() {
                None => {
                    done = true;
                },
                Some(maker) => {
                    if !Self::crossing(is_buy, limit, maker.price()) {
                        done = true;
                    } else {
                        let available = match self.shadow.get(maker.id().as_str()) {
                            Some(staged) => *staged,
                            None => maker.remaining(),
                        };
                        if available != 0 {
                            let take = if remaining <= available {
                                remaining
                            } else {
                                available
                            };
                            remaining = remaining - take;
                            makers.push((maker.id().clone(), take));
                            fills.push(Instruction::Fill(maker.id().clone(), take));
                            self.shadow.insert(maker.id().clone(), available - take);
                            proof {
                                assert(fill_views(makers@) =~= state.fills.push((maker@.id, take)));
                                assert(instruction_views(fills@) =~= instruction_views(
                                    fills_before,
                                ).push(InstructionView::Fill(maker@.id, take)));
                                assert(fill_instructions(fill_views(makers@))
                                    =~= fill_instructions(state.fills).push(
                                    InstructionView::Fill(maker@.id, take),
                                ));
                            }
                            if remaining == 0 {
                                done = true;
                            }
                        }
                    }
                },
            }
        }
        let ghost end = run_match(resting, start, is_buy, limit);
        let taken = left - remaining;
        let matched = if taken > 0 {
            Some(Match { taker: (id.clone(), taken), makers })
        } else {
            None
        };
        let mut instructions: Vec<Instruction<O>> = Vec::new();
        if remaining > 0 {
            self.shadow.insert(id, remaining);
            instructions.push(Instruction::Insert(order, remaining));
        }
        instructions.append(&mut fills);
        proof {
            if remaining > 0 {
                assert(instruction_views(instructions@) =~= seq![
                    InstructionView::Insert(order@, remaining),
                ] + fill_instructions(end.fills));
            } else {
                assert(instruction_views(instructions@) =~= fill_instructions(end.fills));
            }
        }
        (matched, instructions)
    }

    /// Evaluates the insertion of an order.
    ///
    /// An order whose identifier rests in the book, or was staged by an earlier
    /// insert since the book was last changed, is rejected with
    /// `NoOp(OrderAlreadyExists)`. Any other order is matched against the other
    /// side in price-time priority, as far as its price reaches. The result
    /// holds the match, if the order took anything, and the instructions: the
    /// insertion of what remains of the order, if anything does, and then one
    /// fill for each maker, in the order in which the makers are charged. The
    /// resting orders stay as they are; the shadow records what is left of each
    /// maker and of the order.
    pub fn eval_insert(&mut self, order: O) -> (r: (Option<Match>, Vec<Instruction<O>>))
        requires
            old(self).wf(),
        ensures
            final(self).wf(),
            match_view(r.0) == old(self)@.eval_insert(order@).matched,
            instruction_views(r.1@) == old(self)@.eval_insert(order@).instructions,
            final(self)@ == old(self)@.eval_insert(order@).book,
            final(self).spec_bids() == old(self).spec_bids(),
            final(self).spec_asks() == old(self).spec_asks(),
            final(self).index() == old(self).index(),
    {
        let limit = order.price();
        self.eval_insert_at(order, limit)
    }

    /// Evaluates the cancellation of an order: if it rests in the book, it is
    /// staged as gone, so that later inserts of the batch pass it over, and the
    /// instruction is to delete it. The resting orders stay as they are.
    pub fn eval_cancel(&mut self, id: &str) -> (r: Instruction<O>)
        requires
            old(self).wf(),
        ensures
            final(self).wf(),
            r@ == old(self)@.eval_cancel(id@).0,
            final(self)@ == old(self)@.eval_cancel(id@).1,
            final(self).spec_bids() == old(self).spec_bids(),
            final(self).spec_asks() == old(self).spec_asks(),
            final(self).index() == old(self).index(),
    {
        proof {
            self.lemma_lookup(id@);
        }
        if self.orders.contains_key(id) {
            self.shadow.insert(id.to_owned(), 0);
            Instruction::Delete(id.to_owned())
        } else {
            Instruction::NoOp(Msg::OrderNotFound)
        }
    }

    /// Evaluates a batch of operations, in order, and returns their matches
    /// and their instructions. The resting orders stay as they are.
    pub fn eval(&mut self, operations: Vec<Operation<O>>) -> (r: (Vec<Match>, Vec<Instruction<O>>))
        requires
            old(self).wf(),
        ensures
            final(self).wf(),
            match_views(r.0@) == old(self)@.eval(operation_views(operations@)).matches,
            instruction_views(r.1@) == old(self)@.eval(
                operation_views(operations@),
            ).instructions,
            final(self)@ == old(self)@.eval(operation_views(operations@)).book,
            final(self).spec_bids() == old(self).spec_bids(),
            final(self).spec_asks() == old(self).spec_asks(),
            final(self).index() == old(self).index(),
    {
        let ghost all = operation_views(operations@);
        let ghost whole = self@.eval(all);
        let mut matches: Vec<Match> = Vec::new();
        let mut instructions: Vec<Instruction<O>> = Vec::new();
        assert(all.skip(0) =~= all);
        assert(match_views(matches@) + whole.matches =~= whole.matches);
        assert(instruction_views(instructions@) + whole.instructions =~= whole.instructions);
        for operation in it: operations
            invariant
                self.wf(),
                self.bids == old(self).bids,
                self.asks == old(self).asks,
                self.orders@ == old(self).orders@,
                all == operation_views(operations@),
                whole.matches == match_views(matches@) + self@.eval(all.skip(it.index())).matches,
                whole.instructions == instruction_views(instructions@) + self@.eval(
                    all.skip(it.index()),
                ).instructions,
                whole.book == self@.eval(all.skip(it.index())).book,
        {
            let ghost rest = all.skip(it.index());
            let ghost before = self@;
            let ghost first = before.eval_one(operation@);
            let ghost matches_before = match_views(matches@);
            let ghost instructions_before = instruction_views(instructions@);
            proof {
                assert(rest[0] == operation@);
                assert(rest.drop_first() =~= all.skip(it.index() + 1));
            }
            match operation {
                Operation::Insert(order) => {
                    let (matched, mut decided) = self.eval_insert(order);
                    let ghost decided_views = instruction_views(decided@);
                    if let Some(m) = matched {
                        matches.push(m);
                        assert(match_views(matches@) =~= matches_before + seq![m@]);
                    }
                    instructions.append(&mut decided);
                    assert(instruction_views(instructions@) =~= instructions_before
                        + decided_views);
                },
                Operation::Cancel(id) => {
                    let decided = self.eval_cancel(id.as_str());
                    instructions.push(decided);
                    assert(instruction_views(instructions@) =~= instructions_before + seq![
                        decided@,
                    ]);
                },
            }
            proof {
                let after = self@.eval(all.skip(it.index() + 1));
                assert(match_views(matches@) + after.matches =~= matches_before + (match first.matched {
                    Some(m) => seq![m] + after.matches,
                    None => after.matches,
                }));
                assert(instruction_views(instructions@) + after.instructions
                    =~= instructions_before + (first.instructions + after.instructions));
            }
        }
        proof {
            assert(all.skip(all.len() as int) =~= Seq::empty());
            assert(match_views(matches@) + Seq::empty() =~= match_views(matches@));
            assert(instruction_views(instructions@) + Seq::empty() =~= instruction_views(
                instructions@,
            ));
        }
        (matches, instructions)
    }

    /// The index after an order was placed on a side.
    proof fn lemma_index_placed(
        index: Map<Seq<char>, OrderRef>,
        before: &Side<O>,
        after: &Side<O>,
        k: int,
        placed: OrderView,
        handle: OrderRef,
    )
        requires
            before.wf(),
            after.wf(),
            Self::indexed(index, before),
            !index.contains_key(placed.id),
            0 <= k <= before@.len(),
            after@ == before@.insert(k, placed),
            after.handles() == before.handles().insert(k, handle),
            after.spec_is_bid() == before.spec_is_bid(),
            placed.is_buy == before.spec_is_bid(),
            placed.can_rest(),
        ensures
            Self::indexed(index.insert(placed.id, handle), after),
            forall|id: Seq<char>| has_id(before@, id) ==> has_id(after@, id),
            has_id(after@, placed.id),
    {
        before.lemma_wf();
        after.lemma_wf();
        assert(after@[k] == placed);
        assert forall|j: int| 0 <= j < after@.len() implies {
            &&& index.insert(placed.id, handle).contains_key((#[trigger] after@[j]).id)
            &&& index.insert(placed.id, handle)[after@[j].id] == after.handles()[j]
            &&& after@[j].is_buy == after.spec_is_bid()
            &&& after@[j].can_rest()
        } by {
            if j != k {
                let j0 = if j < k {
                    j
                } else {
                    j - 1
                };
                assert(after@[j] == before@[j0]);
                assert(after.handles()[j] == before.handles()[j0]);
            }
        }
        assert forall|id: Seq<char>| has_id(before@, id) implies has_id(after@, id) by {
            let j = id_index(before@, id);
            let j1 = if j < k {
                j
            } else {
                j + 1
            };
            assert(after@[j1] == before@[j]);
        }
    }

    /// The index after an order was taken off a side.
    proof fn lemma_index_removed(
        index: Map<Seq<char>, OrderRef>,
        before: &Side<O>,
        after: &Side<O>,
        k: int,
    )
        requires
            before.wf(),
            after.wf(),
            Self::indexed(index, before),
            0 <= k < before@.len(),
            after@ == before@.remove(k),
            after.handles() == before.handles().remove(k),
            after.spec_is_bid() == before.spec_is_bid(),
        ensures
            Self::indexed(index.remove(before@[k].id), after),
            !has_id(after@, before@[k].id),
            forall|id: Seq<char>| id != before@[k].id && has_id(before@, id) ==> has_id(after@, id),
    {
        before.lemma_wf();
        after.lemma_wf();
        let gone = before@[k].id;
        assert forall|j: int| 0 <= j < after@.len() implies (#[trigger] after@[j]).id != gone by {
            let j0 = if j < k {
                j
            } else {
                j + 1
            };
            assert(after@[j] == before@[j0]);
            assert(before.handles()[j0] != before.handles()[k]);
        }
        assert forall|j: int| 0 <= j < after@.len() implies {
            &&& index.remove(gone).contains_key((#[trigger] after@[j]).id)
            &&& index.remove(gone)[after@[j].id] == after.handles()[j]
            &&& after@[j].is_buy == after.spec_is_bid()
            &&& after@[j].can_rest()
        } by {
            let j0 = if j < k {
                j
            } else {
                j + 1
            };
            assert(after@[j] == before@[j0]);
            assert(after.handles()[j] == before.handles()[j0]);
        }
        assert forall|id: Seq<char>| id != gone && has_id(before@, id) implies has_id(
            after@,
            id,
        ) by {
            let j = id_index(before@, id);
            let j1 = if j < k {
                j
            } else {
                j - 1
            };
            assert(after@[j1] == before@[j]);
        }
    }

    /// The index after part of an order on a side was filled.
    proof fn lemma_index_filled(
        index: Map<Seq<char>, OrderRef>,
        before: &Side<O>,
        after: &Side<O>,
        k: int,
        quantity: u64,
    )
        requires
            before.wf(),
            after.wf(),
            Self::indexed(index, before),
            0 <= k < before@.len(),
            quantity < before@[k].remaining,
            after@ == before@.update(k, before@[k].filled(quantity)),
            after.handles() == before.handles(),
            after.spec_is_bid() == before.spec_is_bid(),
        ensures
            Self::indexed(index, after),
            forall|id: Seq<char>| has_id(before@, id) <==> has_id(after@, id),
    {
        assert forall|j: int| 0 <= j < after@.len() implies {
            &&& index.contains_key((#[trigger] after@[j]).id)
            &&& index[after@[j].id] == after.handles()[j]
            &&& after@[j].is_buy == after.spec_is_bid()
            &&& after@[j].can_rest()
        } by {
            assert(before@[j].can_rest());
        }
        assert forall|id: Seq<char>| has_id(before@, id) <==> has_id(after@, id) by {
            if has_id(before@, id) {
                let j = id_index(before@, id);
                assert(after@[j].id == id);
            }
            if has_id(after@, id) {
                let j = id_index(after@, id);
                assert(before@[j].id == id);
            }
        }
    }

    /// The index of a side that has no order with the identifier that entered
    /// or left the index.
    proof fn lemma_index_elsewhere(
        index: Map<Seq<char>, OrderRef>,
        side: &Side<O>,
        id: Seq<char>,
        handle: OrderRef,
    )
        requires
            Self::indexed(index, side),
            !has_id(side@, id),
        ensures
            Self::indexed(index.insert(id, handle), side),
            Self::indexed(index.remove(id), side),
    {
    }

    /// Carries out `Insert(order, remaining)`.
    fn apply_insert(&mut self, order: O, remaining: u64)
        requires
            old(self).wf(),
        ensures
            final(self).wf(),
            final(self)@ == old(self)@.insert(order@, remaining),
    {
        let id = order.id().clone();
        let left = order.remaining();
        let is_buy = order.is_buy();
        proof {
            self.lemma_lookup(id@);
        }
        if self.orders.contains_key(id.as_str()) || remaining == 0 || remaining > left || remaining
            > order.quantity() {
            return ;
        }
        let total = if is_buy {
            self.bids.total_quantity()
        } else {
            self.asks.total_quantity()
        };
        if remaining > u64::MAX - total {
            return ;
        }
        let ghost placed = OrderView { remaining, ..order@ };
        let mut order = order;
        if left > remaining {
            order.fill(left - remaining);
        }
        assert(order@ == placed);
        if is_buy {
            let handle = self.bids.insert_order(order);
            self.orders.insert(id, handle);
            proof {
                let k = rank(old(self).bids@, true, placed.price);
                Self::lemma_index_placed(
                    old(self).orders@,
                    &old(self).bids,
                    &self.bids,
                    k,
                    placed,
                    handle,
                );
                Self::lemma_index_elsewhere(old(self).orders@, &self.asks, placed.id, handle);
            }
        } else {
            let handle = self.asks.insert_order(order);
            self.orders.insert(id, handle);
            proof {
                let k = rank(old(self).asks@, false, placed.price);
                Self::lemma_index_placed(
                    old(self).orders@,
                    &old(self).asks,
                    &self.asks,
                    k,
                    placed,
                    handle,
                );
                Self::lemma_index_elsewhere(old(self).orders@, &self.bids, placed.id, handle);
            }
        }
    }

    /// Carries out `Fill(id, quantity)`.
    fn apply_fill(&mut self, id: &str, quantity: u64)
        requires
            old(self).wf(),
        ensures
            final(self).wf(),
            final(self)@ == old(self)@.fill(id@, quantity),
    {
        proof {
            self.lemma_lookup(id@);
            self.lemma_distinct();
        }
        let handle = match self.orders.get(id) {
            Some(handle) => *handle,
            None => {
                return ;
            },
        };
        if handle.is_bid() {
            let ghost k = id_index(self.bids@, id@);
            if quantity > self.bids.get(handle).remaining() {
                return ;
            }
            let removed = self.bids.fill_order(handle, quantity);
            if removed {
                self.orders.remove(id);
                proof {
                    Self::lemma_index_removed(old(self).orders@, &old(self).bids, &self.bids, k);
                    Self::lemma_index_elsewhere(old(self).orders@, &self.asks, id@, handle);
                }
            } else {
                proof {
                    Self::lemma_index_filled(
                        old(self).orders@,
                        &old(self).bids,
                        &self.bids,
                        k,
                        quantity,
                    );
                }
            }
        } else {
            let ghost k = id_index(self.asks@, id@);
            if quantity > self.asks.get(handle).remaining() {
                return ;
            }
            let removed = self.asks.fill_order(handle, quantity);
            if removed {
                self.orders.remove(id);
                proof {
                    Self::lemma_index_removed(old(self).orders@, &old(self).asks, &self.asks, k);
                    Self::lemma_index_elsewhere(old(self).orders@, &self.bids, id@, handle);
                }
            } else {
                proof {
                    Self::lemma_index_filled(
                        old(self).orders@,
                        &old(self).asks,
                        &self.asks,
                        k,
                        quantity,
                    );
                }
            }
        }
    }

    /// Carries out `Delete(id)`.
    fn apply_delete(&mut self, id: &str)
        requires
            old(self).wf(),
        ensures
            final(self).wf(),
            final(self)@ == old(self)@.delete(id@),
    {
        proof {
            self.lemma_lookup(id@);
            self.lemma_distinct();
        }
        let handle = match self.orders.get(id) {
            Some(handle) => *handle,
            None => {
                return ;
            },
        };
        if handle.is_bid() {
            let ghost k = id_index(self.bids@, id@);
            self.bids.remove_order(handle);
            self.orders.remove(id);
            proof {
                Self::lemma_index_removed(old(self).orders@, &old(self).bids, &self.bids, k);
                Self::lemma_index_elsewhere(old(self).orders@, &self.asks, id@, handle);
            }
        } else {
            let ghost k = id_index(self.asks@, id@);
            self.asks.remove_order(handle);
            self.orders.remove(id);
            proof {
                Self::lemma_index_removed(old(self).orders@, &old(self).asks, &self.asks, k);
                Self::lemma_index_elsewhere(old(self).orders@, &self.bids, id@, handle);
            }
        }
    }

    /// Carries out one instruction.
    fn apply_one(&mut self, instruction: Instruction<O>)
        requires
            old(self).wf(),
        ensures
            final(self).wf(),
            final(self)@ == old(self)@.step(instruction@),
    {
        match instruction {
            Instruction::Insert(order, remaining) => self.apply_insert(order, remaining),
            Instruction::Fill(id, quantity) => self.apply_fill(id.as_str(), quantity),
            Instruction::Delete(id) => self.apply_delete(id.as_str()),
            Instruction::NoOp(_) => {},
        }
    }

    /// Carries the instructions out, in order, and empties the shadow.
    ///
    /// An instruction that cannot be carried out is passed over: a fill or a
    /// delete of an order that does not rest in the book, a fill of more than
    /// remains of the order, an insert of an order whose identifier rests in
    /// the book, or of none or more of it than is unfilled, or one that would
    /// take the total of its side beyond 64 bits.
    pub fn apply(&mut self, instructions: Vec<Instruction<O>>)
        requires
            old(self).wf(),
        ensures
            final(self).wf(),
            final(self)@ == old(self)@.apply(instruction_views(instructions@)),
            final(self)@.shadow == Map::<Seq<char>, u64>::empty(),
    {
        let ghost all = instruction_views(instructions@);
        assert(all.skip(0) =~= all);
        for instruction in it: instructions
            invariant
                self.wf(),
                all == instruction_views(instructions@),
                old(self)@.steps(all) == self@.steps(all.skip(it.index())),
        {
            proof {
                let rest = all.skip(it.index());
                assert(rest[0] == instruction@);
                assert(rest.drop_first() =~= all.skip(it.index() + 1));
            }
            self.apply_one(instruction);
        }
        self.shadow.clear();
    }

    /// Matches an order up to the price `price`, and places what remains of it:
    /// the insertion is evaluated and applied at once.
    pub fn insert_order(&mut self, price: u64, order: O)
        requires
            old(self).wf(),
        ensures
            final(self).wf(),
            final(self)@ == old(self)@.eval_insert_at(order@, price).book.apply(
                old(self)@.eval_insert_at(order@, price).instructions,
            ),
    {
        let (_, instructions) = self.eval_insert_at(order, price);
        self.apply(instructions);
    }

    /// Takes an order out of the book: the cancellation is evaluated and
    /// applied at once. Nothing changes if no such order rests in the book.
    pub fn cancel_order(&mut self, order_id: &str)
        requires
            old(self).wf(),
        ensures
            final(self).wf(),
            final(self)@ == old(self)@.eval_cancel(order_id@).1.apply(
                seq![old(self)@.eval_cancel(order_id@).0],
            ),
    {
        let instruction = self.eval_cancel(order_id);
        let mut instructions: Vec<Instruction<O>> = Vec::new();
        instructions.push(instruction);
        assert(instruction_views(instructions@) =~= seq![instruction@]);
        self.apply(instructions);
    }
}

impl<O: OrderInterface> Default for OrderBook<O> {
    /// An empty book.
    fn default() -> (r: Self)
        ensures
            r.wf(),
            r@ == (BookView { bids: Seq::empty(), asks: Seq::empty(), shadow: Map::empty() }),
    {
        Self::new()
    }
}

} // verus!
