//! The book as contracts see it.
//!
//! A book is the orders that rest on its two sides, each side in price-time
//! priority, and the shadow: the remaining quantities that evaluations have
//! staged since the book was last changed. Evaluating an operation and applying
//! an instruction are functions on that state, defined here; the contracts of
//! the executable book say that it computes them.

use crate::level::sum_remaining;
use crate::order::OrderView;
use crate::side::{in_priority_order, rank};
use vstd::prelude::*;

verus! {

/// Why an operation had no effect.
#[derive(Clone, Copy, Debug, PartialEq, Eq, Structural)]
pub enum Msg {
    /// A cancel named an order that does not rest in the book.
    OrderNotFound,
    /// An insert named an order that rests in the book, or that an earlier
    /// insert of the same batch has staged.
    OrderAlreadyExists,
}

/// A request to the book.
pub ghost enum OperationView {
    /// Place an order, after matching it against the other side.
    Insert(OrderView),
    /// Take the order with this identifier out of the book.
    Cancel(Seq<char>),
}

/// A change to the book that an evaluation has decided on.
pub ghost enum InstructionView {
    /// Place the order on its side with this much of it remaining.
    Insert(OrderView, u64),
    /// Fill this much of the resting order with this identifier, and remove the
    /// order if nothing remains of it.
    Fill(Seq<char>, u64),
    /// Remove the resting order with this identifier.
    Delete(Seq<char>),
    /// Nothing: the operation was rejected.
    NoOp(Msg),
}

/// What one incoming order took: the total, and the part of each maker, best
/// priority first.
pub ghost struct MatchView {
    pub taker: (Seq<char>, u64),
    pub makers: Seq<(Seq<char>, u64)>,
}

/// The state of a book.
pub ghost struct BookView {
    /// The resting buy orders in price-time priority: highest price first.
    pub bids: Seq<OrderView>,
    /// The resting sell orders in price-time priority: lowest price first.
    pub asks: Seq<OrderView>,
    /// The staged remaining quantities, by identifier.
    pub shadow: Map<Seq<char>, u64>,
}

/// Whether one of the orders has this identifier.
pub open spec fn has_id(orders: Seq<OrderView>, id: Seq<char>) -> bool {
    exists|k: int| 0 <= k < orders.len() && (#[trigger] orders[k]).id == id
}

/// The place of the order with this identifier, if one of the orders has it.
pub open spec fn id_index(orders: Seq<OrderView>, id: Seq<char>) -> int {
    choose|k: int| 0 <= k < orders.len() && (#[trigger] orders[k]).id == id
}

/// Whether no two of the orders share an identifier.
pub open spec fn distinct_ids(orders: Seq<OrderView>) -> bool {
    forall|a: int, b: int|
        0 <= a < orders.len() && 0 <= b < orders.len() && a != b ==> (#[trigger] orders[a]).id != (
        #[trigger] orders[b]).id
}

/// Whether every order of a sequence is one that may rest on the given side.
pub open spec fn all_rest(orders: Seq<OrderView>, is_buy: bool) -> bool {
    forall|k: int|
        0 <= k < orders.len() ==> (#[trigger] orders[k]).is_buy == is_buy && orders[k].can_rest()
}

/// Whether no order of the first sequence shares its identifier with one of
/// the second.
pub open spec fn disjoint_ids(a: Seq<OrderView>, b: Seq<OrderView>) -> bool {
    forall|i: int, j: int|
        0 <= i < a.len() && 0 <= j < b.len() ==> (#[trigger] a[i]).id != (#[trigger] b[j]).id
}

/// The orders after `quantity` of the one at place `k` has been filled: it is
/// gone if nothing remains of it.
pub open spec fn fill_at(orders: Seq<OrderView>, k: int, quantity: u64) -> Seq<OrderView> {
    let filled = orders[k].filled(quantity);
    if filled.remaining == 0 {
        orders.remove(k)
    } else {
        orders.update(k, filled)
    }
}

impl BookView {
    /// What holds of the resting orders of every book: buy orders rest on the
    /// bid side and sell orders on the ask side; of each order part is
    /// unfilled, and not more than the whole; no two orders share an
    /// identifier; each side stands in price-time priority; and the total of
    /// each side is within 64 bits.
    pub open spec fn ok(self) -> bool {
        &&& all_rest(self.bids, true)
        &&& all_rest(self.asks, false)
        &&& distinct_ids(self.bids)
        &&& distinct_ids(self.asks)
        &&& disjoint_ids(self.bids, self.asks)
        &&& in_priority_order(self.bids, true)
        &&& in_priority_order(self.asks, false)
        &&& sum_remaining(self.bids) <= u64::MAX
        &&& sum_remaining(self.asks) <= u64::MAX
    }

    /// Whether an order with this identifier rests in the book.
    pub open spec fn rests(self, id: Seq<char>) -> bool {
        has_id(self.bids, id) || has_id(self.asks, id)
    }

    /// The side that buy orders, or sell orders, rest on.
    pub open spec fn side(self, is_buy: bool) -> Seq<OrderView> {
        if is_buy {
            self.bids
        } else {
            self.asks
        }
    }

    /// The book with other orders resting on one side.
    pub open spec fn with_side(self, is_buy: bool, orders: Seq<OrderView>) -> BookView {
        if is_buy {
            BookView { bids: orders, ..self }
        } else {
            BookView { asks: orders, ..self }
        }
    }

    /// The book with another shadow.
    pub open spec fn with_shadow(self, shadow: Map<Seq<char>, u64>) -> BookView {
        BookView { shadow, ..self }
    }

    /// Whether `Insert(o, remaining)` can be carried out: the order does not
    /// rest in the book yet, part of what is unfilled remains, not more than
    /// the whole, and the total of its side stays within 64 bits.
    pub open spec fn can_insert(self, o: OrderView, remaining: u64) -> bool {
        &&& !self.rests(o.id)
        &&& 0 < remaining <= o.remaining
        &&& remaining <= o.quantity
        &&& sum_remaining(self.side(o.is_buy)) + remaining <= u64::MAX
    }

    /// The book after `Insert(o, remaining)`: the order rests on its side with
    /// `remaining` unfilled, behind every order at a better or the same price.
    pub open spec fn insert(self, o: OrderView, remaining: u64) -> BookView {
        if self.can_insert(o, remaining) {
            let placed = OrderView { remaining, ..o };
            let orders = self.side(o.is_buy);
            self.with_side(o.is_buy, orders.insert(rank(orders, o.is_buy, o.price), placed))
        } else {
            self
        }
    }

    /// The book after `Fill(id, quantity)`. Nothing changes if no such order
    /// rests in the book, or if less than `quantity` remains of it.
    pub open spec fn fill(self, id: Seq<char>, quantity: u64) -> BookView {
        if has_id(self.bids, id) {
            let k = id_index(self.bids, id);
            if quantity <= self.bids[k].remaining {
                BookView { bids: fill_at(self.bids, k, quantity), ..self }
            } else {
                self
            }
        } else if has_id(self.asks, id) {
            let k = id_index(self.asks, id);
            if quantity <= self.asks[k].remaining {
                BookView { asks: fill_at(self.asks, k, quantity), ..self }
            } else {
                self
            }
        } else {
            self
        }
    }

    /// The book after `Delete(id)`. Nothing changes if no such order rests in
    /// the book.
    pub open spec fn delete(self, id: Seq<char>) -> BookView {
        if has_id(self.bids, id) {
            BookView { bids: self.bids.remove(id_index(self.bids, id)), ..self }
        } else if has_id(self.asks, id) {
            BookView { asks: self.asks.remove(id_index(self.asks, id)), ..self }
        } else {
            self
        }
    }

    /// The book after one instruction. The shadow stays as it is.
    pub open spec fn step(self, instruction: InstructionView) -> BookView {
        match instruction {
            InstructionView::Insert(o, remaining) => self.insert(o, remaining),
            InstructionView::Fill(id, quantity) => self.fill(id, quantity),
            InstructionView::Delete(id) => self.delete(id),
            InstructionView::NoOp(_) => self,
        }
    }

    /// The book after a list of instructions, carried out in order. The shadow
    /// stays as it is.
    pub open spec fn steps(self, instructions: Seq<InstructionView>) -> BookView
        decreases instructions.len(),
    {
        if instructions.len() == 0 {
            self
        } else {
            self.step(instructions[0]).steps(instructions.drop_first())
        }
    }

    /// The book after `apply`: the instructions carried out in order, and the
    /// shadow empty.
    pub open spec fn apply(self, instructions: Seq<InstructionView>) -> BookView {
        self.steps(instructions).with_shadow(Map::empty())
    }

    /// The outcome of `eval_cancel`: the instruction, and the book with the
    /// order staged as gone.
    pub open spec fn eval_cancel(self, id: Seq<char>) -> (InstructionView, BookView) {
        if self.rests(id) {
            (InstructionView::Delete(id), self.with_shadow(self.shadow.insert(id, 0)))
        } else {
            (InstructionView::NoOp(Msg::OrderNotFound), self)
        }
    }

    /// The outcome of `eval_insert`.
    pub open spec fn eval_insert(self, o: OrderView) -> Evaluation {
        self.eval_insert_at(o, o.price)
    }

    /// The outcome of evaluating the insertion of `o` when it is matched up to
    /// the price `limit`.
    ///
    /// An order whose identifier rests in the book or is staged is rejected.
    /// Otherwise the order is matched against the other side. Its fills follow
    /// in the order in which the makers are charged. If part of the order
    /// remains, an insertion of that part stands before the fills, and the part
    /// is staged under the order's identifier.
    pub open spec fn eval_insert_at(self, o: OrderView, limit: u64) -> Evaluation {
        if self.rests(o.id) || self.shadow.contains_key(o.id) {
            Evaluation {
                matched: None,
                instructions: seq![InstructionView::NoOp(Msg::OrderAlreadyExists)],
                book: self,
            }
        } else {
            let start = Matching { remaining: o.remaining, fills: Seq::empty(), shadow: self.shadow };
            let end = run_match(self.side(!o.is_buy), start, o.is_buy, limit);
            let taken = (o.remaining - end.remaining) as u64;
            let fills = fill_instructions(end.fills);
            Evaluation {
                matched: if taken > 0 {
                    Some(MatchView { taker: (o.id, taken), makers: end.fills })
                } else {
                    None
                },
                instructions: if end.remaining > 0 {
                    seq![InstructionView::Insert(o, end.remaining)] + fills
                } else {
                    fills
                },
                book: self.with_shadow(
                    if end.remaining > 0 {
                        end.shadow.insert(o.id, end.remaining)
                    } else {
                        end.shadow
                    },
                ),
            }
        }
    }

    /// The outcome of evaluating one operation.
    pub open spec fn eval_one(self, operation: OperationView) -> Evaluation {
        match operation {
            OperationView::Insert(o) => self.eval_insert(o),
            OperationView::Cancel(id) => Evaluation {
                matched: None,
                instructions: seq![self.eval_cancel(id).0],
                book: self.eval_cancel(id).1,
            },
        }
    }

    /// The outcome of `eval`: the operations evaluated in order, each on the
    /// book that the one before it left, their matches and their instructions
    /// collected in that order.
    pub open spec fn eval(self, operations: Seq<OperationView>) -> Batch
        decreases operations.len(),
    {
        if operations.len() == 0 {
            Batch { matches: Seq::empty(), instructions: Seq::empty(), book: self }
        } else {
            let first = self.eval_one(operations[0]);
            let rest = first.book.eval(operations.drop_first());
            Batch {
                matches: match first.matched {
                    Some(m) => seq![m] + rest.matches,
                    None => rest.matches,
                },
                instructions: first.instructions + rest.instructions,
                book: rest.book,
            }
        }
    }
}

/// The outcome of evaluating one operation.
pub ghost struct Evaluation {
    /// What the incoming order took, if it took anything.
    pub matched: Option<MatchView>,
    /// What to apply.
    pub instructions: Seq<InstructionView>,
    /// The book afterwards. Only its shadow can differ.
    pub book: BookView,
}

/// The outcome of evaluating a list of operations.
pub ghost struct Batch {
    pub matches: Seq<MatchView>,
    pub instructions: Seq<InstructionView>,
    pub book: BookView,
}

/// Whether an incoming order with this limit may trade with a resting order at
/// price `resting`: a buy at or above it, a sell at or below it.
pub open spec fn crosses(is_buy: bool, limit: u64, resting: u64) -> bool {
    if is_buy {
        limit >= resting
    } else {
        limit <= resting
    }
}

/// What is left of a resting order for the current batch: its staged remaining
/// quantity if it has one, else its own.
pub open spec fn effective(shadow: Map<Seq<char>, u64>, o: OrderView) -> u64 {
    if shadow.contains_key(o.id) {
        shadow[o.id]
    } else {
        o.remaining
    }
}

/// The smaller of two quantities.
pub open spec fn smaller(a: u64, b: u64) -> u64 {
    if a <= b {
        a
    } else {
        b
    }
}

/// The state of a matching: what is left of the incoming order, what it has
/// taken from which maker, and the shadow.
pub ghost struct Matching {
    pub remaining: u64,
    pub fills: Seq<(Seq<char>, u64)>,
    pub shadow: Map<Seq<char>, u64>,
}

/// The matching after the incoming order has taken from the maker `m`.
pub open spec fn take_from(state: Matching, m: OrderView) -> Matching {
    let available = effective(state.shadow, m);
    let take = smaller(state.remaining, available);
    Matching {
        remaining: (state.remaining - take) as u64,
        fills: state.fills.push((m.id, take)),
        shadow: state.shadow.insert(m.id, (available - take) as u64),
    }
}

/// Matches an incoming order against the makers, which stand in price-time
/// priority.
///
/// The first maker whose price the limit does not reach ends the matching. A
/// maker of which nothing is left for this batch is passed over. From any
/// other the incoming order takes what it can, and the matching ends when
/// nothing is left of the incoming order.
pub open spec fn run_match(makers: Seq<OrderView>, state: Matching, is_buy: bool, limit: u64)
    -> Matching
    decreases makers.len(),
{
    if makers.len() == 0 {
        state
    } else if !crosses(is_buy, limit, makers[0].price) {
        state
    } else if effective(state.shadow, makers[0]) == 0 {
        run_match(makers.drop_first(), state, is_buy, limit)
    } else {
        let next = take_from(state, makers[0]);
        if next.remaining == 0 {
            next
        } else {
            run_match(makers.drop_first(), next, is_buy, limit)
        }
    }
}

/// The fill instructions for what was taken from the makers.
pub open spec fn fill_instructions(fills: Seq<(Seq<char>, u64)>) -> Seq<InstructionView> {
    Seq::new(fills.len(), |k: int| InstructionView::Fill(fills[k].0, fills[k].1))
}

/// The sum of the quantities taken from the makers.
pub open spec fn sum_fills(fills: Seq<(Seq<char>, u64)>) -> int
    decreases fills.len(),
{
    if fills.len() == 0 {
        0
    } else {
        sum_fills(fills.drop_last()) + fills.last().1
    }
}

/// The sum of the quantities of the fill instructions among some instructions.
pub open spec fn sum_fill_instructions(instructions: Seq<InstructionView>) -> int
    decreases instructions.len(),
{
    if instructions.len() == 0 {
        0
    } else {
        sum_fill_instructions(instructions.drop_last()) + match instructions.last() {
            InstructionView::Fill(_, quantity) => quantity as int,
            _ => 0,
        }
    }
}

} // verus!
