//! Laws of the book, stated over its model and proved.
//!
//! The contracts of the executable book say that it computes the functions of
//! the model. What is proved here of those functions therefore holds of every
//! run of the executable book.

use crate::level::{
    lemma_sum_insert,
    lemma_sum_remove,
    lemma_sum_update,
    sum_remaining,
};
use crate::model::{
    all_rest,
    crosses,
    disjoint_ids,
    distinct_ids,
    effective,
    fill_at,
    fill_instructions,
    has_id,
    id_index,
    run_match,
    sum_fill_instructions,
    sum_fills,
    take_from,
    BookView,
    InstructionView,
    MatchView,
    Matching,
    Msg,
    OperationView,
};
use crate::order::OrderView;
use crate::side::{better, in_priority_order, rank};
use vstd::prelude::*;

verus! {

/// Among orders in priority order, a new order is placed behind every order at
/// a better or the same price, and before every order at a worse price. So
/// orders at one price stand in the order in which they came.
pub proof fn lemma_rank_place(orders: Seq<OrderView>, is_bid: bool, price: u64)
    requires
        in_priority_order(orders, is_bid),
    ensures
        0 <= rank(orders, is_bid, price) <= orders.len(),
        forall|j: int|
            0 <= j < rank(orders, is_bid, price) ==> !better(
                is_bid,
                price,
                (#[trigger] orders[j]).price,
            ),
        forall|j: int|
            rank(orders, is_bid, price) <= j < orders.len() ==> better(
                is_bid,
                price,
                (#[trigger] orders[j]).price,
            ),
    decreases orders.len(),
{
    if orders.len() > 0 {
        if better(is_bid, price, orders[0].price) {
            assert forall|j: int| 0 <= j < orders.len() implies better(
                is_bid,
                price,
                (#[trigger] orders[j]).price,
            ) by {
                if j > 0 {
                    assert(!better(is_bid, orders[j].price, orders[0].price));
                }
            }
        } else {
            let rest = orders.drop_first();
            assert forall|a: int, b: int| 0 <= a < b < rest.len() implies !better(
                is_bid,
                rest[b].price,
                rest[a].price,
            ) by {
                assert(rest[a] == orders[a + 1]);
                assert(rest[b] == orders[b + 1]);
            }
            lemma_rank_place(rest, is_bid, price);
            assert forall|j: int| 0 <= j < rank(orders, is_bid, price) implies !better(
                is_bid,
                price,
                (#[trigger] orders[j]).price,
            ) by {
                if j > 0 {
                    assert(rest[j - 1] == orders[j]);
                }
            }
            assert forall|j: int| rank(orders, is_bid, price) <= j < orders.len() implies better(
                is_bid,
                price,
                (#[trigger] orders[j]).price,
            ) by {
                assert(rest[j - 1] == orders[j]);
            }
        }
    }
}

/// Placing an order by its rank keeps a side in priority order.
pub proof fn lemma_rank_keeps_priority(orders: Seq<OrderView>, is_bid: bool, o: OrderView)
    requires
        in_priority_order(orders, is_bid),
    ensures
        in_priority_order(orders.insert(rank(orders, is_bid, o.price), o), is_bid),
{
    lemma_rank_place(orders, is_bid, o.price);
    let k = rank(orders, is_bid, o.price);
    let placed = orders.insert(k, o);
    assert forall|a: int, b: int| 0 <= a < b < placed.len() implies !better(
        is_bid,
        placed[b].price,
        placed[a].price,
    ) by {
        let a0 = if a < k {
            a
        } else {
            a - 1
        };
        let b0 = if b < k {
            b
        } else {
            b - 1
        };
        if a == k {
            assert(placed[b] == orders[b0]);
        } else if b == k {
            assert(placed[a] == orders[a0]);
        } else {
            assert(placed[a] == orders[a0]);
            assert(placed[b] == orders[b0]);
        }
    }
}

/// Conservation in a matching: what the incoming order loses is what the
/// makers are charged.
pub proof fn lemma_match_conserves(
    makers: Seq<OrderView>,
    state: Matching,
    is_buy: bool,
    limit: u64,
)
    ensures
        run_match(makers, state, is_buy, limit).remaining <= state.remaining,
        state.remaining - run_match(makers, state, is_buy, limit).remaining == sum_fills(
            run_match(makers, state, is_buy, limit).fills,
        ) - sum_fills(state.fills),
        sum_fill_instructions(fill_instructions(run_match(makers, state, is_buy, limit).fills))
            == sum_fills(run_match(makers, state, is_buy, limit).fills),
    decreases makers.len(),
{
    let end = run_match(makers, state, is_buy, limit);
    lemma_fill_instructions_sum(end.fills);
    if makers.len() == 0 || !crosses(is_buy, limit, makers[0].price) {
    } else if effective(state.shadow, makers[0]) == 0 {
        lemma_match_conserves(makers.drop_first(), state, is_buy, limit);
    } else {
        let next = take_from(state, makers[0]);
        assert(next.fills.drop_last() =~= state.fills);
        if next.remaining != 0 {
            lemma_match_conserves(makers.drop_first(), next, is_buy, limit);
        }
    }
}

/// The makers are charged in the order in which they stand: the fills that a
/// matching adds name makers at places that grow from fill to fill, and every
/// maker that is charged stands at a price that the limit reaches. The places
/// are returned.
pub proof fn lemma_fills_in_priority(
    makers: Seq<OrderView>,
    state: Matching,
    is_buy: bool,
    limit: u64,
) -> (places: Seq<int>)
    ensures
        run_match(makers, state, is_buy, limit).fills.len() == state.fills.len() + places.len(),
        forall|t: int|
            0 <= t < state.fills.len() ==> run_match(makers, state, is_buy, limit).fills[t]
                == state.fills[t],
        forall|t: int|
            0 <= t < places.len() ==> {
                &&& 0 <= #[trigger] places[t] < makers.len()
                &&& run_match(makers, state, is_buy, limit).fills[state.fills.len() + t].0
                    == makers[places[t]].id
                &&& crosses(is_buy, limit, makers[places[t]].price)
            },
        forall|s: int, t: int| 0 <= s < t < places.len() ==> places[s] < places[t],
    decreases makers.len(),
{
    if makers.len() == 0 || !crosses(is_buy, limit, makers[0].price) {
        Seq::empty()
    } else if effective(state.shadow, makers[0]) == 0 {
        let later = lemma_fills_in_priority(makers.drop_first(), state, is_buy, limit);
        let places = Seq::new(later.len(), |t: int| later[t] + 1);
        assert forall|t: int| 0 <= t < places.len() implies {
            &&& 0 <= #[trigger] places[t] < makers.len()
            &&& run_match(makers, state, is_buy, limit).fills[state.fills.len() + t].0
                == makers[places[t]].id
            &&& crosses(is_buy, limit, makers[places[t]].price)
        } by {
            assert(0 <= later[t] < makers.drop_first().len());
            assert(makers.drop_first()[later[t]] == makers[places[t]]);
        }
        places
    } else {
        let next = take_from(state, makers[0]);
        if next.remaining == 0 {
            seq![0int]
        } else {
            let later = lemma_fills_in_priority(makers.drop_first(), next, is_buy, limit);
            let places = seq![0int] + Seq::new(later.len(), |t: int| later[t] + 1);
            let end = run_match(makers, state, is_buy, limit);
            assert forall|t: int| 0 <= t < state.fills.len() implies end.fills[t]
                == state.fills[t] by {
                assert(next.fills[t] == state.fills[t]);
            }
            assert forall|t: int| 0 <= t < places.len() implies {
                &&& 0 <= #[trigger] places[t] < makers.len()
                &&& end.fills[state.fills.len() + t].0 == makers[places[t]].id
                &&& crosses(is_buy, limit, makers[places[t]].price)
            } by {
                if t == 0 {
                    assert(end.fills[state.fills.len() as int] == next.fills[state.fills.len() as int]);
                } else {
                    assert(0 <= later[t - 1] < makers.drop_first().len());
                    assert(makers.drop_first()[later[t - 1]] == makers[places[t]]);
                    assert(end.fills[next.fills.len() + (t - 1)].0 == makers.drop_first()[later[t
                        - 1]].id);
                }
            }
            assert forall|s: int, t: int| 0 <= s < t < places.len() implies places[s]
                < places[t] by {
                if s > 0 {
                    assert(later[s - 1] < later[t - 1]);
                } else {
                    assert(0 <= later[t - 1]);
                }
            }
            places
        }
    }
}

/// The fill instructions carry the quantities of the fills.
pub proof fn lemma_fill_instructions_sum(fills: Seq<(Seq<char>, u64)>)
    ensures
        sum_fill_instructions(fill_instructions(fills)) == sum_fills(fills),
    decreases fills.len(),
{
    if fills.len() > 0 {
        lemma_fill_instructions_sum(fills.drop_last());
        assert(fill_instructions(fills).drop_last() =~= fill_instructions(fills.drop_last()));
    }
}

/// The sum of the fill quantities of two lists of instructions laid end to end.
pub proof fn lemma_fill_sum_concat(a: Seq<InstructionView>, b: Seq<InstructionView>)
    ensures
        sum_fill_instructions(a + b) == sum_fill_instructions(a) + sum_fill_instructions(b),
    decreases b.len(),
{
    if b.len() == 0 {
        assert(a + b =~= a);
    } else {
        lemma_fill_sum_concat(a, b.drop_last());
        assert((a + b).drop_last() =~= a + b.drop_last());
    }
}

/// Conservation in the evaluation of an insert: if there is a match, the
/// quantity of the taker is the sum of the quantities of its makers, and the
/// sum of the fills among the instructions; if there is none, the instructions
/// fill nothing. The taker of a match took something, and is the order.
pub proof fn lemma_insert_conserves(book: BookView, o: OrderView, limit: u64)
    ensures
        match book.eval_insert_at(o, limit).matched {
            Some(m) => {
                &&& m.taker.0 == o.id
                &&& m.taker.1 > 0
                &&& m.taker.1 == sum_fills(m.makers)
                &&& m.taker.1 == sum_fill_instructions(book.eval_insert_at(o, limit).instructions)
            },
            None => sum_fill_instructions(book.eval_insert_at(o, limit).instructions) == 0,
        },
{
    let e = book.eval_insert_at(o, limit);
    reveal_with_fuel(sum_fill_instructions, 2);
    if book.rests(o.id) || book.shadow.contains_key(o.id) {
        assert(e.instructions.drop_last() =~= Seq::empty());
    } else {
        let start = Matching { remaining: o.remaining, fills: Seq::empty(), shadow: book.shadow };
        let end = run_match(book.side(!o.is_buy), start, o.is_buy, limit);
        lemma_match_conserves(book.side(!o.is_buy), start, o.is_buy, limit);
        let fills = fill_instructions(end.fills);
        assert(sum_fills(start.fills) == 0);
        assert(sum_fill_instructions(fills) == sum_fills(end.fills));
        if end.remaining > 0 {
            let first = seq![InstructionView::Insert(o, end.remaining)];
            lemma_fill_sum_concat(first, fills);
            assert(first.drop_last() =~= Seq::empty());
            assert(sum_fill_instructions(first) == 0);
            assert(e.instructions == first + fills);
        } else {
            assert(e.instructions == fills);
        }
    }
}

/// The sum of the quantities that the takers of some matches took.
pub open spec fn sum_taken(matches: Seq<MatchView>) -> int
    decreases matches.len(),
{
    if matches.len() == 0 {
        0
    } else {
        sum_taken(matches.drop_last()) + matches.last().taker.1
    }
}

/// The sum over two lists of matches laid end to end.
pub proof fn lemma_taken_concat(a: Seq<MatchView>, b: Seq<MatchView>)
    ensures
        sum_taken(a + b) == sum_taken(a) + sum_taken(b),
    decreases b.len(),
{
    if b.len() == 0 {
        assert(a + b =~= a);
    } else {
        lemma_taken_concat(a, b.drop_last());
        assert((a + b).drop_last() =~= a + b.drop_last());
    }
}

/// Conservation in the evaluation of a batch: in every match the quantity of
/// the taker is the sum of the quantities of its makers, and the takers of all
/// matches together took the sum of all fills among the instructions.
pub proof fn lemma_batch_conserves(book: BookView, operations: Seq<OperationView>)
    ensures
        forall|k: int|
            0 <= k < book.eval(operations).matches.len() ==> {
                let m = #[trigger] book.eval(operations).matches[k];
                m.taker.1 > 0 && m.taker.1 == sum_fills(m.makers)
            },
        sum_taken(book.eval(operations).matches) == sum_fill_instructions(
            book.eval(operations).instructions,
        ),
    decreases operations.len(),
{
    reveal_with_fuel(sum_fill_instructions, 2);
    reveal_with_fuel(sum_taken, 2);
    if operations.len() > 0 {
        let first = book.eval_one(operations[0]);
        let rest = first.book.eval(operations.drop_first());
        lemma_batch_conserves(first.book, operations.drop_first());
        lemma_fill_sum_concat(first.instructions, rest.instructions);
        match operations[0] {
            OperationView::Insert(o) => {
                lemma_insert_conserves(book, o, o.price);
            },
            OperationView::Cancel(id) => {
                assert(first.instructions.drop_last() =~= Seq::empty());
                assert(sum_fill_instructions(first.instructions) == 0);
            },
        }
        let whole = book.eval(operations);
        assert(whole.instructions == first.instructions + rest.instructions);
        match first.matched {
            Some(m) => {
                lemma_taken_concat(seq![m], rest.matches);
                assert(seq![m].drop_last() =~= Seq::empty());
                assert(sum_taken(seq![m]) == m.taker.1);
                assert(whole.matches == seq![m] + rest.matches);
                assert forall|k: int| 0 <= k < whole.matches.len() implies {
                    let x = #[trigger] whole.matches[k];
                    x.taker.1 > 0 && x.taker.1 == sum_fills(x.makers)
                } by {
                    if k > 0 {
                        assert(whole.matches[k] == rest.matches[k - 1]);
                    }
                }
            },
            None => {
                assert(whole.matches == rest.matches);
            },
        }
    }
}

/// After an order has left a side, no order there has its identifier.
pub proof fn lemma_removed_is_gone(orders: Seq<OrderView>, id: Seq<char>)
    requires
        distinct_ids(orders),
        has_id(orders, id),
    ensures
        0 <= id_index(orders, id) < orders.len(),
        !has_id(orders.remove(id_index(orders, id)), id),
{
    let k = id_index(orders, id);
    let rest = orders.remove(k);
    if has_id(rest, id) {
        let j = id_index(rest, id);
        let j0 = if j < k {
            j
        } else {
            j + 1
        };
        assert(rest[j] == orders[j0]);
    }
}

/// An order that has just been placed is found where it was placed, and taking
/// it out again leaves the side as it was.
pub proof fn lemma_placed_is_found(orders: Seq<OrderView>, k: int, o: OrderView)
    requires
        !has_id(orders, o.id),
        0 <= k <= orders.len(),
    ensures
        has_id(orders.insert(k, o), o.id),
        id_index(orders.insert(k, o), o.id) == k,
        orders.insert(k, o).remove(k) == orders,
{
    let placed = orders.insert(k, o);
    assert(placed[k].id == o.id);
    let j = id_index(placed, o.id);
    if j != k {
        let j0 = if j < k {
            j
        } else {
            j - 1
        };
        assert(placed[j] == orders[j0]);
    }
    assert(placed.remove(k) =~= orders);
}

/// Cancelling is idempotent: once the cancellation of an order has been
/// evaluated and applied, evaluating it again gives `NoOp(OrderNotFound)`, and
/// applying that changes nothing.
pub proof fn lemma_cancel_twice(book: BookView, id: Seq<char>)
    requires
        book.ok(),
    ensures
        ({
            let first = book.eval_cancel(id);
            let after = first.1.apply(seq![first.0]);
            let second = after.eval_cancel(id);
            &&& !after.rests(id)
            &&& second.0 == InstructionView::NoOp(Msg::OrderNotFound)
            &&& second.1.apply(seq![second.0]) == after
        }),
{
    let first = book.eval_cancel(id);
    let staged = first.1;
    let after = staged.apply(seq![first.0]);
    reveal_with_fuel(BookView::steps, 2);
    assert(seq![first.0].drop_first() =~= Seq::empty());
    if has_id(book.bids, id) {
        lemma_removed_is_gone(book.bids, id);
        let k = id_index(book.asks, id);
        let j = id_index(book.bids, id);
        assert(!has_id(book.asks, id)) by {
            if has_id(book.asks, id) {
                assert(book.bids[j].id != book.asks[k].id);
            }
        }
    } else if has_id(book.asks, id) {
        lemma_removed_is_gone(book.asks, id);
    }
    let second = after.eval_cancel(id);
    assert(seq![second.0].drop_first() =~= Seq::empty());
    assert(after.shadow =~= Map::empty());
}

/// An insert that does not reach the other side: the order has a new
/// identifier and something unfilled, the total of its side has room for it,
/// and the best price of the other side, if there is one, is beyond its
/// limit. Its evaluation gives no match and the one instruction to insert the
/// order whole. Once that is applied, and the cancellation of the order is
/// evaluated and applied, the orders rest as they did before.
pub proof fn lemma_insert_then_cancel(book: BookView, o: OrderView)
    requires
        book.ok(),
        !book.rests(o.id),
        !book.shadow.contains_key(o.id),
        0 < o.remaining <= o.quantity,
        sum_remaining(book.side(o.is_buy)) + o.remaining <= u64::MAX,
        book.side(!o.is_buy).len() > 0 ==> !crosses(
            o.is_buy,
            o.price,
            book.side(!o.is_buy)[0].price,
        ),
    ensures
        ({
            let e = book.eval_insert(o);
            let placed = e.book.apply(e.instructions);
            let cancel = placed.eval_cancel(o.id);
            let back = cancel.1.apply(seq![cancel.0]);
            &&& e.matched is None
            &&& e.instructions == seq![InstructionView::Insert(o, o.remaining)]
            &&& placed.rests(o.id)
            &&& cancel.0 == InstructionView::Delete(o.id)
            &&& back.bids == book.bids
            &&& back.asks == book.asks
            &&& back.shadow == Map::<Seq<char>, u64>::empty()
        }),
{
    let e = book.eval_insert(o);
    let start = Matching { remaining: o.remaining, fills: Seq::empty(), shadow: book.shadow };
    assert(run_match(book.side(!o.is_buy), start, o.is_buy, o.price) == start);
    assert(fill_instructions(Seq::empty()) =~= Seq::empty());
    assert(e.instructions =~= seq![InstructionView::Insert(o, o.remaining)]);
    reveal_with_fuel(BookView::steps, 2);
    assert(e.instructions.drop_first() =~= Seq::empty());
    let side = book.side(o.is_buy);
    let k = rank(side, o.is_buy, o.price);
    lemma_rank_place(side, o.is_buy, o.price);
    let same = OrderView { remaining: o.remaining, ..o };
    assert(same == o);
    lemma_placed_is_found(side, k, o);
    let placed = e.book.apply(e.instructions);
    assert(e.book.can_insert(o, o.remaining));
    assert(placed.side(o.is_buy) == side.insert(k, o));
    let cancel = placed.eval_cancel(o.id);
    assert(seq![cancel.0].drop_first() =~= Seq::empty());
    if o.is_buy {
    } else {
        assert(!has_id(placed.bids, o.id));
    }
}

/// The order of an operation that is an insert.
pub open spec fn inserted(operation: OperationView) -> OrderView
    recommends
        operation is Insert,
{
    operation->Insert_0
}

/// The sum of the quantities of the orders that a batch inserts on one side.
pub open spec fn side_quantity(operations: Seq<OperationView>, is_buy: bool) -> int
    decreases operations.len(),
{
    if operations.len() == 0 {
        0
    } else {
        side_quantity(operations.drop_first(), is_buy) + match operations[0] {
            OperationView::Insert(o) => if o.is_buy == is_buy {
                o.quantity as int
            } else {
                0
            },
            OperationView::Cancel(_) => 0,
        }
    }
}

/// The sum of the quantities of the orders that a batch inserts.
pub open spec fn batch_quantity(operations: Seq<OperationView>) -> int {
    side_quantity(operations, true) + side_quantity(operations, false)
}

/// Whether every operation of a batch inserts an order, none of it filled,
/// with an identifier that is new to the book and to the batch, and the totals
/// of the sides have room for the orders.
pub open spec fn all_new(book: BookView, operations: Seq<OperationView>) -> bool {
    &&& forall|k: int|
        0 <= k < operations.len() ==> {
            &&& #[trigger] operations[k] is Insert
            &&& 0 < inserted(operations[k]).remaining == inserted(operations[k]).quantity
            &&& !book.rests(inserted(operations[k]).id)
        }
    &&& forall|i: int, j: int|
        0 <= i < operations.len() && 0 <= j < operations.len() && i != j ==> inserted(
            #[trigger] operations[i],
        ).id != inserted(#[trigger] operations[j]).id
    &&& sum_remaining(book.bids) + side_quantity(operations, true) <= u64::MAX
    &&& sum_remaining(book.asks) + side_quantity(operations, false) <= u64::MAX
}

/// Whether no order of a batch of inserts is staged, and none has a limit that
/// reaches the best price of the other side of the book.
pub open spec fn none_reaches(book: BookView, operations: Seq<OperationView>) -> bool {
    forall|k: int|
        0 <= k < operations.len() ==> {
            &&& !book.shadow.contains_key(inserted(#[trigger] operations[k]).id)
            &&& book.side(!inserted(operations[k]).is_buy).len() > 0 ==> !crosses(
                inserted(operations[k]).is_buy,
                inserted(operations[k]).price,
                book.side(!inserted(operations[k]).is_buy)[0].price,
            )
        }
}

/// A batch in which no buy meets a sell: it inserts new orders, none of which
/// reaches the other side of the book.
pub open spec fn non_crossing(book: BookView, operations: Seq<OperationView>) -> bool {
    all_new(book, operations) && none_reaches(book, operations)
}

/// The instructions that insert each order of a batch whole.
pub open spec fn whole_inserts(operations: Seq<OperationView>) -> Seq<InstructionView> {
    Seq::new(
        operations.len(),
        |k: int| InstructionView::Insert(inserted(operations[k]), inserted(operations[k]).remaining),
    )
}

/// The quantities of a batch are not negative.
pub proof fn lemma_side_quantity_nonnegative(operations: Seq<OperationView>, is_buy: bool)
    ensures
        0 <= side_quantity(operations, is_buy),
    decreases operations.len(),
{
    if operations.len() > 0 {
        lemma_side_quantity_nonnegative(operations.drop_first(), is_buy);
    }
}

/// The rank lies within the sequence.
pub proof fn lemma_rank_bounds(orders: Seq<OrderView>, is_bid: bool, price: u64)
    ensures
        0 <= rank(orders, is_bid, price) <= orders.len(),
    decreases orders.len(),
{
    if orders.len() > 0 && !better(is_bid, price, orders[0].price) {
        lemma_rank_bounds(orders.drop_first(), is_bid, price);
    }
}

/// The evaluation of a non-crossing batch matches nothing, and decides to
/// insert each order whole. The orders of the book rest as before.
pub proof fn lemma_non_crossing_eval(book: BookView, operations: Seq<OperationView>)
    requires
        non_crossing(book, operations),
    ensures
        book.eval(operations).matches == Seq::<MatchView>::empty(),
        book.eval(operations).instructions == whole_inserts(operations),
        book.eval(operations).book.bids == book.bids,
        book.eval(operations).book.asks == book.asks,
    decreases operations.len(),
{
    if operations.len() == 0 {
        assert(whole_inserts(operations) =~= Seq::empty());
    } else {
        let o = inserted(operations[0]);
        let rest = operations.drop_first();
        assert(operations[0] is Insert);
        let start = Matching { remaining: o.remaining, fills: Seq::empty(), shadow: book.shadow };
        assert(run_match(book.side(!o.is_buy), start, o.is_buy, o.price) == start);
        assert(fill_instructions(Seq::empty()) =~= Seq::empty());
        let first = book.eval_one(operations[0]);
        assert(first.instructions =~= seq![InstructionView::Insert(o, o.remaining)]);
        lemma_side_quantity_nonnegative(rest, true);
        lemma_side_quantity_nonnegative(rest, false);
        assert forall|k: int| 0 <= k < rest.len() implies {
            &&& #[trigger] rest[k] is Insert
            &&& 0 < inserted(rest[k]).remaining == inserted(rest[k]).quantity
            &&& !first.book.rests(inserted(rest[k]).id)
            &&& !first.book.shadow.contains_key(inserted(rest[k]).id)
            &&& first.book.side(!inserted(rest[k]).is_buy).len() > 0 ==> !crosses(
                inserted(rest[k]).is_buy,
                inserted(rest[k]).price,
                first.book.side(!inserted(rest[k]).is_buy)[0].price,
            )
        } by {
            assert(rest[k] == operations[k + 1]);
            assert(inserted(operations[k + 1]).id != inserted(operations[0]).id);
        }
        assert forall|i: int, j: int|
            0 <= i < rest.len() && 0 <= j < rest.len() && i != j implies inserted(
            #[trigger] rest[i],
        ).id != inserted(#[trigger] rest[j]).id by {
            assert(rest[i] == operations[i + 1]);
            assert(rest[j] == operations[j + 1]);
        }
        lemma_non_crossing_eval(first.book, rest);
        assert(book.eval(operations).instructions =~= whole_inserts(operations)) by {
            assert forall|k: int| 0 < k < operations.len() implies whole_inserts(operations)[k]
                == whole_inserts(rest)[k - 1] by {
                assert(rest[k - 1] == operations[k]);
            }
        }
    }
}

/// Inserting the orders of a batch of new orders whole adds their quantities
/// to the totals of their sides.
pub proof fn lemma_whole_inserts_add(book: BookView, operations: Seq<OperationView>)
    requires
        all_new(book, operations),
    ensures
        sum_remaining(book.steps(whole_inserts(operations)).bids) == sum_remaining(book.bids)
            + side_quantity(operations, true),
        sum_remaining(book.steps(whole_inserts(operations)).asks) == sum_remaining(book.asks)
            + side_quantity(operations, false),
    decreases operations.len(),
{
    let instructions = whole_inserts(operations);
    if operations.len() > 0 {
        let o = inserted(operations[0]);
        let rest = operations.drop_first();
        assert(operations[0] is Insert);
        lemma_side_quantity_nonnegative(rest, true);
        lemma_side_quantity_nonnegative(rest, false);
        assert(instructions[0] == InstructionView::Insert(o, o.remaining));
        assert(instructions.drop_first() =~= whole_inserts(rest)) by {
            assert forall|k: int| 0 <= k < rest.len() implies instructions.drop_first()[k]
                == whole_inserts(rest)[k] by {
                assert(rest[k] == operations[k + 1]);
            }
        }
        assert(book.can_insert(o, o.remaining));
        let next = book.insert(o, o.remaining);
        let side = book.side(o.is_buy);
        let k = rank(side, o.is_buy, o.price);
        let grown = side.insert(k, o);
        lemma_rank_bounds(side, o.is_buy, o.price);
        lemma_sum_insert(side, k, o);
        assert(OrderView { remaining: o.remaining, ..o } == o);
        assert(next.side(o.is_buy) == grown);
        assert(next.side(!o.is_buy) == book.side(!o.is_buy));
        assert forall|j: int| 0 <= j < rest.len() implies {
            &&& #[trigger] rest[j] is Insert
            &&& 0 < inserted(rest[j]).remaining == inserted(rest[j]).quantity
            &&& !next.rests(inserted(rest[j]).id)
        } by {
            let x = inserted(rest[j]);
            assert(rest[j] == operations[j + 1]);
            assert(inserted(operations[j + 1]).id != inserted(operations[0]).id);
            if has_id(grown, x.id) {
                let i = id_index(grown, x.id);
                let i0 = if i < k {
                    i
                } else {
                    i - 1
                };
                assert(grown[i] == side[i0]);
                assert(has_id(side, x.id));
            }
        }
        assert forall|i: int, j: int|
            0 <= i < rest.len() && 0 <= j < rest.len() && i != j implies inserted(
            #[trigger] rest[i],
        ).id != inserted(#[trigger] rest[j]).id by {
            assert(rest[i] == operations[i + 1]);
            assert(rest[j] == operations[j + 1]);
        }
        lemma_whole_inserts_add(next, rest);
    }
}

/// A non-crossing batch matches nothing, and once it is applied, the orders
/// of the book hold the quantities of the batch more than before.
pub proof fn lemma_non_crossing_batch(book: BookView, operations: Seq<OperationView>)
    requires
        non_crossing(book, operations),
    ensures
        ({
            let batch = book.eval(operations);
            let after = batch.book.apply(batch.instructions);
            &&& batch.matches.len() == 0
            &&& sum_taken(batch.matches) == 0
            &&& sum_remaining(after.bids) + sum_remaining(after.asks) == sum_remaining(book.bids)
                + sum_remaining(book.asks) + batch_quantity(operations)
        }),
{
    lemma_non_crossing_eval(book, operations);
    let batch = book.eval(operations);
    assert(all_new(batch.book, operations));
    lemma_whole_inserts_add(batch.book, operations);
}

/// A side from which an order is taken keeps what holds of the sides of a
/// book.
proof fn lemma_remove_keeps(orders: Seq<OrderView>, other: Seq<OrderView>, is_buy: bool, k: int)
    requires
        0 <= k < orders.len(),
        all_rest(orders, is_buy),
        distinct_ids(orders),
        in_priority_order(orders, is_buy),
        sum_remaining(orders) <= u64::MAX,
    ensures
        all_rest(orders.remove(k), is_buy),
        distinct_ids(orders.remove(k)),
        in_priority_order(orders.remove(k), is_buy),
        sum_remaining(orders.remove(k)) <= u64::MAX,
        disjoint_ids(orders, other) ==> disjoint_ids(orders.remove(k), other),
        disjoint_ids(other, orders) ==> disjoint_ids(other, orders.remove(k)),
{
    let rest = orders.remove(k);
    lemma_sum_remove(orders, k);
    assert forall|j: int| 0 <= j < rest.len() implies #[trigger] rest[j] == orders[if j < k {
        j
    } else {
        j + 1
    }] by {}
    assert forall|a: int, b: int| 0 <= a < b < rest.len() implies !better(
        is_buy,
        rest[b].price,
        rest[a].price,
    ) by {
        let a0 = if a < k {
            a
        } else {
            a + 1
        };
        let b0 = if b < k {
            b
        } else {
            b + 1
        };
        assert(!better(is_buy, orders[b0].price, orders[a0].price));
    }
    assert forall|a: int, b: int|
        0 <= a < rest.len() && 0 <= b < rest.len() && a != b implies (#[trigger] rest[a]).id != (
    #[trigger] rest[b]).id by {
        let a0 = if a < k {
            a
        } else {
            a + 1
        };
        let b0 = if b < k {
            b
        } else {
            b + 1
        };
        assert(orders[a0].id != orders[b0].id);
    }
    if disjoint_ids(orders, other) {
        assert forall|i: int, j: int| 0 <= i < rest.len() && 0 <= j < other.len() implies (
        #[trigger] rest[i]).id != (#[trigger] other[j]).id by {
            let i0 = if i < k {
                i
            } else {
                i + 1
            };
            assert(orders[i0].id != other[j].id);
        }
    }
    if disjoint_ids(other, orders) {
        assert forall|i: int, j: int| 0 <= i < other.len() && 0 <= j < rest.len() implies (
        #[trigger] other[i]).id != (#[trigger] rest[j]).id by {
            let j0 = if j < k {
                j
            } else {
                j + 1
            };
            assert(other[i].id != orders[j0].id);
        }
    }
}

/// A side on which part of an order is filled keeps what holds of the sides of
/// a book.
proof fn lemma_fill_keeps(
    orders: Seq<OrderView>,
    other: Seq<OrderView>,
    is_buy: bool,
    k: int,
    quantity: u64,
)
    requires
        0 <= k < orders.len(),
        quantity <= orders[k].remaining,
        all_rest(orders, is_buy),
        distinct_ids(orders),
        in_priority_order(orders, is_buy),
        sum_remaining(orders) <= u64::MAX,
    ensures
        all_rest(fill_at(orders, k, quantity), is_buy),
        distinct_ids(fill_at(orders, k, quantity)),
        in_priority_order(fill_at(orders, k, quantity), is_buy),
        sum_remaining(fill_at(orders, k, quantity)) <= u64::MAX,
        disjoint_ids(orders, other) ==> disjoint_ids(
            fill_at(orders, k, quantity),
            other,
        ),
        disjoint_ids(other, orders) ==> disjoint_ids(
            other,
            fill_at(orders, k, quantity),
        ),
{
    let filled = orders[k].filled(quantity);
    if filled.remaining == 0 {
        lemma_remove_keeps(orders, other, is_buy, k);
    } else {
        let changed = orders.update(k, filled);
        lemma_sum_update(orders, k, filled);
        assert forall|a: int, b: int| 0 <= a < b < changed.len() implies !better(
            is_buy,
            changed[b].price,
            changed[a].price,
        ) by {
            assert(!better(is_buy, orders[b].price, orders[a].price));
        }
        assert forall|a: int, b: int|
            0 <= a < changed.len() && 0 <= b < changed.len() && a != b implies (
        #[trigger] changed[a]).id != (#[trigger] changed[b]).id by {
            assert(orders[a].id != orders[b].id);
        }
        assert forall|j: int| 0 <= j < changed.len() implies (#[trigger] changed[j]).is_buy
            == is_buy && changed[j].can_rest() by {
            assert(orders[j].can_rest());
        }
        if disjoint_ids(orders, other) {
            assert forall|i: int, j: int| 0 <= i < changed.len() && 0 <= j < other.len() implies (
            #[trigger] changed[i]).id != (#[trigger] other[j]).id by {
                assert(orders[i].id != other[j].id);
            }
        }
        if disjoint_ids(other, orders) {
            assert forall|i: int, j: int| 0 <= i < other.len() && 0 <= j < changed.len() implies (
            #[trigger] other[i]).id != (#[trigger] changed[j]).id by {
                assert(other[i].id != orders[j].id);
            }
        }
    }
}

/// A side on which a new order is placed keeps what holds of the sides of a
/// book.
proof fn lemma_insert_keeps(orders: Seq<OrderView>, other: Seq<OrderView>, o: OrderView)
    requires
        all_rest(orders, o.is_buy),
        distinct_ids(orders),
        in_priority_order(orders, o.is_buy),
        o.can_rest(),
        !has_id(orders, o.id),
        !has_id(other, o.id),
        sum_remaining(orders) + o.remaining <= u64::MAX,
    ensures
        all_rest(orders.insert(rank(orders, o.is_buy, o.price), o), o.is_buy),
        distinct_ids(orders.insert(rank(orders, o.is_buy, o.price), o)),
        in_priority_order(orders.insert(rank(orders, o.is_buy, o.price), o), o.is_buy),
        sum_remaining(orders.insert(rank(orders, o.is_buy, o.price), o)) <= u64::MAX,
        disjoint_ids(orders, other) ==> disjoint_ids(
            orders.insert(rank(orders, o.is_buy, o.price), o),
            other,
        ),
        disjoint_ids(other, orders) ==> disjoint_ids(
            other,
            orders.insert(rank(orders, o.is_buy, o.price), o),
        ),
{
    let k = rank(orders, o.is_buy, o.price);
    let grown = orders.insert(k, o);
    lemma_rank_bounds(orders, o.is_buy, o.price);
    lemma_rank_keeps_priority(orders, o.is_buy, o);
    lemma_sum_insert(orders, k, o);
    assert forall|j: int| 0 <= j < grown.len() && j != k implies #[trigger] grown[j] == orders[if j
        < k {
        j
    } else {
        j - 1
    }] by {}
    assert forall|j: int| 0 <= j < grown.len() implies (#[trigger] grown[j]).is_buy == o.is_buy
        && grown[j].can_rest() by {
        if j != k {
            let j0 = if j < k {
                j
            } else {
                j - 1
            };
            assert(orders[j0].can_rest());
        }
    }
    assert forall|a: int, b: int|
        0 <= a < grown.len() && 0 <= b < grown.len() && a != b implies (#[trigger] grown[a]).id != (
    #[trigger] grown[b]).id by {
        let a0 = if a < k {
            a
        } else {
            a - 1
        };
        let b0 = if b < k {
            b
        } else {
            b - 1
        };
        if a != k && b != k {
            assert(orders[a0].id != orders[b0].id);
        } else if a == k {
            assert(orders[b0].id != o.id);
        } else {
            assert(orders[a0].id != o.id);
        }
    }
    if disjoint_ids(orders, other) {
        assert forall|i: int, j: int| 0 <= i < grown.len() && 0 <= j < other.len() implies (
        #[trigger] grown[i]).id != (#[trigger] other[j]).id by {
            if i != k {
                let i0 = if i < k {
                    i
                } else {
                    i - 1
                };
                assert(orders[i0].id != other[j].id);
            }
        }
    }
    if disjoint_ids(other, orders) {
        assert forall|i: int, j: int| 0 <= i < other.len() && 0 <= j < grown.len() implies (
        #[trigger] other[i]).id != (#[trigger] grown[j]).id by {
            if j != k {
                let j0 = if j < k {
                    j
                } else {
                    j - 1
                };
                assert(other[i].id != orders[j0].id);
            }
        }
    }
}

/// One instruction keeps what holds of the resting orders of every book.
pub proof fn lemma_step_keeps_ok(book: BookView, instruction: InstructionView)
    requires
        book.ok(),
    ensures
        book.step(instruction).ok(),
        book.step(instruction).shadow == book.shadow,
{
    match instruction {
        InstructionView::Insert(o, remaining) => {
            if book.can_insert(o, remaining) {
                let placed = OrderView { remaining, ..o };
                if o.is_buy {
                    lemma_insert_keeps(book.bids, book.asks, placed);
                } else {
                    lemma_insert_keeps(book.asks, book.bids, placed);
                }
            }
        },
        InstructionView::Fill(id, quantity) => {
            if has_id(book.bids, id) {
                let k = id_index(book.bids, id);
                if quantity <= book.bids[k].remaining {
                    lemma_fill_keeps(book.bids, book.asks, true, k, quantity);
                }
            } else if has_id(book.asks, id) {
                let k = id_index(book.asks, id);
                if quantity <= book.asks[k].remaining {
                    lemma_fill_keeps(book.asks, book.bids, false, k, quantity);
                }
            }
        },
        InstructionView::Delete(id) => {
            if has_id(book.bids, id) {
                lemma_remove_keeps(book.bids, book.asks, true, id_index(book.bids, id));
            } else if has_id(book.asks, id) {
                lemma_remove_keeps(book.asks, book.bids, false, id_index(book.asks, id));
            }
        },
        InstructionView::NoOp(_) => {},
    }
}

/// Whatever instructions are applied, what holds of the resting orders of
/// every book holds afterwards, and the shadow is empty.
pub proof fn lemma_apply_keeps_ok(book: BookView, instructions: Seq<InstructionView>)
    requires
        book.ok(),
    ensures
        book.steps(instructions).ok(),
        book.steps(instructions).shadow == book.shadow,
        book.apply(instructions).ok(),
        book.apply(instructions).shadow == Map::<Seq<char>, u64>::empty(),
    decreases instructions.len(),
{
    if instructions.len() > 0 {
        lemma_step_keeps_ok(book, instructions[0]);
        lemma_apply_keeps_ok(book.step(instructions[0]), instructions.drop_first());
    }
}

/// Evaluation moves no resting order: whatever operations are evaluated, the
/// same orders rest on both sides afterwards.
pub proof fn lemma_eval_keeps_resting(book: BookView, operations: Seq<OperationView>)
    ensures
        book.eval(operations).book.bids == book.bids,
        book.eval(operations).book.asks == book.asks,
    decreases operations.len(),
{
    if operations.len() > 0 {
        lemma_eval_keeps_resting(book.eval_one(operations[0]).book, operations.drop_first());
    }
}

} // verus!
